//! What Tungsten tells Roblox about an upload: who creates the asset, and
//! the request that accompanies the image bytes.

use vstd::prelude::*;
use crate::text::same_text;

verus! {

/// The owner of uploaded assets, with the numeric id from the
/// configuration (sent to Roblox as a decimal string).
pub enum Creator {
    User(u64),
    Group(u64),
}

/// The configured creator type is neither "user" nor "group".
pub struct InvalidCreatorType {
    pub creator_type: String,
}

impl Creator {
    /// The creator that a configuration's `creator_type` and `id` name:
    /// "user" and "group" are accepted, anything else is refused.
    pub fn from_config(creator_type: &str, id: u64) -> (r: Result<Creator, InvalidCreatorType>)
        ensures
            creator_type@ == "user"@ ==> r == Ok::<Creator, InvalidCreatorType>(Creator::User(id)),
            creator_type@ == "group"@ ==> r == Ok::<Creator, InvalidCreatorType>(Creator::Group(id)),
            creator_type@ != "user"@ && creator_type@ != "group"@ ==> (r matches Err(e)
                && e.creator_type@ == creator_type@),
    {
        proof {
            reveal_strlit("user");
            reveal_strlit("group");
            assert("user"@.len() != "group"@.len());
        }
        if same_text(creator_type, "user") {
            Ok(Creator::User(id))
        } else if same_text(creator_type, "group") {
            Ok(Creator::Group(id))
        } else {
            Err(InvalidCreatorType { creator_type: creator_type.to_owned() })
        }
    }

    /// A copy of this creator.
    pub fn duplicate(&self) -> (c: Creator)
        ensures
            c == *self,
    {
        match self {
            Creator::User(id) => Creator::User(*id),
            Creator::Group(id) => Creator::Group(*id),
        }
    }
}

/// The metadata sent with an asset upload.
pub struct UploadRequest {
    pub asset_type: String,
    pub display_name: String,
    pub description: String,
    pub creator: Creator,
}

impl UploadRequest {
    /// The request for uploading an image named `name` as a decal owned by
    /// `creator`.
    pub fn decal(name: &str, creator: Creator) -> (r: UploadRequest)
        ensures
            r.asset_type@ == "Decal"@,
            r.display_name@ == name@,
            r.description@ == "Uploaded by Tungsten"@,
            r.creator == creator,
    {
        UploadRequest {
            asset_type: String::from_str("Decal"),
            display_name: name.to_owned(),
            description: String::from_str("Uploaded by Tungsten"),
            creator,
        }
    }
}

} // verus!
