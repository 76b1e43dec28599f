//! The decisions of a sync run: which files are images to sync, where an
//! input's images are rooted, whether an image is uploaded or its earlier
//! asset id reused, and what the generated code lists for each image.

use vstd::prelude::*;
use crate::lockfile::{Lockfile, LockMap, lookup, record};
use crate::upload::{lemma_parse_reads_decimal, parse_u64_spec};
use crate::text::{
    chars_of, decimal, first_index_or_len, last_index_of, lemma_first_index_or_len,
    lemma_first_index_props, lemma_last_index_of, lemma_trim_end, lemma_trim_end_removed, same_text, string_from_chars, to_decimal, trim_end,
};

verus! {

/// The sync target that uploads to Roblox; any other target is a dry run.
pub open spec fn uploads_to_roblox(target: Seq<char>) -> bool {
    target == "roblox"@
}

/// Only the target named exactly `roblox` uploads; every other target,
/// including other spellings, is a dry run.
pub proof fn lemma_roblox_target_law(target: Seq<char>)
    ensures
        uploads_to_roblox(target) <==> target == seq!['r', 'o', 'b', 'l', 'o', 'x'],
{
    reveal_strlit("roblox");
    assert("roblox"@ =~= seq!['r', 'o', 'b', 'l', 'o', 'x']);
}

/// Uploading to Roblox needs an API key, and none was given.
pub struct MissingApiKey;

/// The API key that the run uploads with: `Some` when the target is
/// "roblox" (where a key is required), `None` for a dry run.
pub fn upload_key(target: &str, api_key: Option<String>) -> (r: Result<Option<String>, MissingApiKey>)
    ensures
        uploads_to_roblox(target@) && api_key is Some ==> r == Ok::<Option<String>, MissingApiKey>(
            api_key,
        ),
        uploads_to_roblox(target@) && api_key is None ==> r is Err,
        !uploads_to_roblox(target@) ==> r == Ok::<Option<String>, MissingApiKey>(None),
{
    if same_text(target, "roblox") {
        match api_key {
            Some(k) => Ok(Some(k)),
            None => Err(MissingApiKey),
        }
    } else {
        Ok(None)
    }
}

/// How the generated code is written.
pub struct CodegenOptions {
    pub style: String,
    pub strip_extension: bool,
}

impl CodegenOptions {
    /// The configured style and extension stripping, defaulting to the
    /// "flat" style and keeping extensions.
    pub fn resolve(style: Option<String>, strip_extension: Option<bool>) -> (o: CodegenOptions)
        ensures
            o.style@ == match style {
                Some(s) => s@,
                None => "flat"@,
            },
            o.strip_extension == match strip_extension {
                Some(b) => b,
                None => false,
            },
    {
        let style = match style {
            Some(s) => s,
            None => String::from_str("flat"),
        };
        let strip_extension = match strip_extension {
            Some(b) => b,
            None => false,
        };
        CodegenOptions { style, strip_extension }
    }
}

/// The directory an input's glob pattern is rooted at: the text before the
/// first `*`, without trailing `/`.
pub open spec fn base_path_spec(pattern: Seq<char>) -> Seq<char> {
    trim_end(pattern.take(first_index_or_len(pattern, '*') as int), '/')
}

/// The base of a pattern is the start of the pattern, without any `*`, not
/// ending in `/`, and what follows it in the pattern is only `/` up to the
/// first `*` (or the end).
pub proof fn lemma_base_path_law(pattern: Seq<char>)
    ensures
        ({
            let b = base_path_spec(pattern);
            &&& b.len() <= pattern.len()
            &&& b =~= pattern.take(b.len() as int)
            &&& forall|i: int| 0 <= i < b.len() ==> b[i] != '*'
            &&& b.len() > 0 ==> b.last() != '/'
            &&& forall|j: int|
                b.len() <= j < pattern.len() && pattern[j] != '/' ==> exists|i: int|
                    b.len() <= i <= j && pattern[i] == '*'
        }),
{
    let f = first_index_or_len(pattern, '*');
    lemma_first_index_props(pattern, '*');
    let t = pattern.take(f as int);
    lemma_trim_end(t, '/');
    lemma_trim_end_removed(t, '/');
    let b = base_path_spec(pattern);
    assert(b == trim_end(t, '/'));
    assert(b =~= pattern.take(b.len() as int));
    assert forall|i: int| 0 <= i < b.len() implies b[i] != '*' by {
        assert(b[i] == pattern[i]);
    }
    assert forall|j: int| b.len() <= j < pattern.len() && pattern[j] != '/' implies exists|i: int|
        b.len() <= i <= j && pattern[i] == '*' by {
        if j < f {
            assert(t[j] == pattern[j]);
        } else {
            assert(pattern[f as int] == '*');
        }
    }
}

/// The directory an input's glob pattern is rooted at (image names are
/// taken relative to it).
pub fn base_path(pattern: &str) -> (b: String)
    ensures
        b@ == base_path_spec(pattern@),
{
    let cs = chars_of(pattern);
    let n = cs.len();
    let mut k: usize = 0;
    while k < n && cs[k] != '*'
        invariant
            n == cs@.len(),
            k <= n,
            forall|j: int| 0 <= j < k ==> cs@[j] != '*',
        decreases n - k,
    {
        k = k + 1;
    }
    proof {
        lemma_first_index_or_len(cs@, '*', k as int);
    }
    let mut e: usize = k;
    while e > 0 && cs[e - 1] == '/'
        invariant
            e <= k,
            k <= n,
            n == cs@.len(),
            trim_end(cs@.take(k as int), '/') == trim_end(cs@.take(e as int), '/'),
        decreases e,
    {
        proof {
            let t = cs@.take(e as int);
            assert(t.drop_last() =~= cs@.take(e - 1));
        }
        e = e - 1;
    }
    proof {
        let t = cs@.take(e as int);
        if e > 0 {
            assert(t.last() == cs@[e - 1]);
        }
        assert(trim_end(t, '/') == t);
    }
    string_from_chars(&cs.as_slice()[0..e])
}

/// The extension `png`, as `Path::extension` finds it in a file name: the
/// text after the last `.`, where that `.` is not the name's first character.
pub open spec fn has_png_extension(name: Seq<char>) -> bool {
    let p = last_index_of(name, '.');
    p > 0 && name.skip(p + 1) == seq!['p', 'n', 'g']
}

/// A file name has the PNG extension exactly when it ends with `.png` and
/// has at least one character before that.
pub proof fn lemma_png_extension_law(name: Seq<char>)
    ensures
        has_png_extension(name) <==> name.len() >= 5 && name.skip(name.len() - 4) == seq![
            '.',
            'p',
            'n',
            'g',
        ],
{
    lemma_last_index_of(name, '.');
    let p = last_index_of(name, '.');
    let png = seq!['p', 'n', 'g'];
    let dpng = seq!['.', 'p', 'n', 'g'];
    if has_png_extension(name) {
        assert(name.skip(p + 1).len() == 3);
        assert(name.len() == p + 4);
        assert(name.skip(name.len() - 4) =~= dpng) by {
            assert(name[p] == '.');
            assert(name[p + 1] == name.skip(p + 1)[0]);
            assert(name[p + 2] == name.skip(p + 1)[1]);
            assert(name[p + 3] == name.skip(p + 1)[2]);
        }
    }
    if name.len() >= 5 && name.skip(name.len() - 4) == dpng {
        let q = name.len() - 4;
        assert(name[q] == name.skip(q)[0]);
        assert(name[q + 1] == name.skip(q)[1]);
        assert(name[q + 2] == name.skip(q)[2]);
        assert(name[q + 3] == name.skip(q)[3]);
        assert(p == q) by {
            if p < q {
                assert(name[q] != '.');
            }
            if p > q {
                assert(name[p] == '.');
            }
        }
        assert(name.skip(p + 1) =~= png);
    }
}

/// Whether a matched path, by its file name, is a PNG image that sync
/// processes (a path without a file name is not).
pub fn is_png_file_name(file_name: Option<&str>) -> (r: bool)
    ensures
        r == (file_name matches Some(n) && has_png_extension(n@)),
{
    match file_name {
        None => false,
        Some(name) => {
            let cs = chars_of(name);
            let n = cs.len();
            let mut i: usize = n;
            proof {
                assert(cs@.take(n as int) =~= cs@);
            }
            while i > 0 && cs[i - 1] != '.'
                invariant
                    i <= n,
                    n == cs@.len(),
                    last_index_of(cs@, '.') == last_index_of(cs@.take(i as int), '.'),
                decreases i,
            {
                proof {
                    assert(cs@.take(i as int).drop_last() =~= cs@.take(i - 1));
                }
                i = i - 1;
            }
            proof {
                assert(cs@.take(n as int) =~= cs@);
                if i > 0 {
                    assert(cs@.take(i as int).last() == '.');
                }
            }
            if i < 2 {
                // no `.`, or the only `.` starts the name
                proof {
                    if i == 0 {
                        assert(last_index_of(cs@.take(0), '.') == -1);
                    }
                }
                return false;
            }
            if n - i != 3 {
                proof {
                    assert(cs@.skip(i as int).len() != 3);
                }
                return false;
            }
            let r = cs[i] == 'p' && cs[i + 1] == 'n' && cs[i + 2] == 'g';
            proof {
                if r {
                    assert(cs@.skip(i as int) =~= seq!['p', 'n', 'g']);
                } else {
                    assert(cs@.skip(i as int)[0] == cs@[i as int]);
                    assert(cs@.skip(i as int)[1] == cs@[i + 1]);
                    assert(cs@.skip(i as int)[2] == cs@[i + 2]);
                    assert(seq!['p', 'n', 'g'][0] == 'p');
                    assert(seq!['p', 'n', 'g'][1] == 'n');
                    assert(seq!['p', 'n', 'g'][2] == 'g');
                }
            }
            r
        },
    }
}

/// The last component of a `/`-separated path as `Path` reads it: trailing
/// and repeated `/` and `.` components are passed over.
pub open spec fn last_component(p: Seq<char>) -> Option<Seq<char>>
    decreases p.len(),
{
    let t = trim_end(p, '/');
    if t.len() == 0 {
        None
    } else {
        let k = last_index_of(t, '/');
        let comp = t.skip(k + 1);
        if comp == seq!['.'] {
            if k < 0 {
                None
            } else {
                proof {
                    lemma_trim_end(p, '/');
                    lemma_last_index_of(t, '/');
                }
                last_component(t.take(k))
            }
        } else {
            Some(comp)
        }
    }
}

/// `Path::file_stem` of a path: its file name (the last component, unless
/// that is `..`), without the text from the name's last `.` on, where that
/// `.` is not the name's first character.
pub open spec fn file_stem_spec(p: Seq<char>) -> Option<Seq<char>> {
    match last_component(p) {
        Some(name) => if name == seq!['.', '.'] {
            None
        } else {
            let d = last_index_of(name, '.');
            if d > 0 {
                Some(name.take(d))
            } else {
                Some(name)
            }
        },
        None => None,
    }
}

/// The last component of a single name (no `/`, not `.`) is the name.
proof fn lemma_last_component_of_name(n: Seq<char>)
    requires
        n.len() > 0,
        forall|i: int| 0 <= i < n.len() ==> n[i] != '/',
        n != seq!['.'],
    ensures
        last_component(n) == Some(n),
{
    assert(n.last() != '/');
    assert(trim_end(n, '/') == n);
    lemma_last_index_of(n, '/');
    assert(last_index_of(n, '/') == -1);
    assert(n.skip(0) =~= n);
}

/// The stem of a file name (no `/`, not `.` or `..`) is the whole name when
/// no `.` follows its first character, and otherwise the non-empty part
/// before its last `.`.
pub proof fn lemma_file_stem_of_name(n: Seq<char>)
    requires
        n.len() > 0,
        forall|i: int| 0 <= i < n.len() ==> n[i] != '/',
        n != seq!['.'],
        n != seq!['.', '.'],
    ensures
        file_stem_spec(n) is Some,
        ({
            let st = file_stem_spec(n)->0;
            &&& st =~= n.take(st.len() as int)
            &&& st.len() == n.len() ==> forall|i: int| 0 < i < n.len() ==> n[i] != '.'
            &&& st.len() < n.len() ==> st.len() > 0 && n[st.len() as int] == '.' && forall|i: int|
                st.len() < i < n.len() ==> n[i] != '.'
        }),
{
    lemma_last_component_of_name(n);
    lemma_last_index_of(n, '.');
}

/// A trailing `/` does not change a path's stem, and neither does the
/// directory in front of a file name.
pub proof fn lemma_file_stem_of_path(dir: Seq<char>, n: Seq<char>)
    requires
        n.len() > 0,
        forall|i: int| 0 <= i < n.len() ==> n[i] != '/',
        n != seq!['.'],
    ensures
        file_stem_spec(dir + seq!['/']) == file_stem_spec(dir),
        file_stem_spec(dir + seq!['/'] + n) == file_stem_spec(n),
{
    let a = dir + seq!['/'];
    assert(a.drop_last() =~= dir);
    assert(trim_end(a, '/') == trim_end(dir, '/'));
    let q = dir + seq!['/'] + n;
    let k = dir.len() as int;
    assert(q.last() == n.last());
    assert(trim_end(q, '/') == q);
    lemma_last_index_of(q, '/');
    let idx = last_index_of(q, '/');
    assert(q[k] == '/');
    assert(idx == k) by {
        if idx < k {
            assert(q[k] != '/');
        }
        if idx > k {
            assert(q[idx] == n[idx - k - 1]);
        }
    }
    assert(q.skip(k + 1) =~= n);
    lemma_last_component_of_name(n);
    assert(last_component(q) == Some(n));
}

/// The output path names no file.
pub struct InvalidOutputPath;

/// The name of the table in an input's generated code: the file stem of its
/// output path.
pub fn table_name(output_path: &str) -> (r: Result<String, InvalidOutputPath>)
    ensures
        match file_stem_spec(output_path@) {
            Some(stem) => r matches Ok(t) && t@ == stem,
            None => r is Err,
        },
{
    let cs = chars_of(output_path);
    let n = cs.len();
    let mut end: usize = n;
    proof {
        assert(cs@.take(n as int) =~= cs@);
    }
    loop
        invariant
            n == cs@.len(),
            cs@ == output_path@,
            end <= n,
            last_component(cs@) == last_component(cs@.take(end as int)),
        decreases end,
    {
        let ghost before = end;
        while end > 0 && cs[end - 1] == '/'
            invariant
                end <= before,
                before <= n,
                n == cs@.len(),
                trim_end(cs@.take(before as int), '/') == trim_end(cs@.take(end as int), '/'),
            decreases end,
        {
            proof {
                assert(cs@.take(end as int).drop_last() =~= cs@.take(end - 1));
            }
            end = end - 1;
        }
        proof {
            let t = cs@.take(end as int);
            if end > 0 {
                assert(t.last() == cs@[end - 1]);
            }
            assert(trim_end(t, '/') == t);
            assert(trim_end(cs@.take(before as int), '/') == t);
        }
        if end == 0 {
            proof {
                assert(last_component(cs@.take(before as int)) is None);
            }
            return Err(InvalidOutputPath);
        }
        let mut start: usize = end;
        while start > 0 && cs[start - 1] != '/'
            invariant
                start <= end,
                end <= n,
                n == cs@.len(),
                last_index_of(cs@.take(end as int), '/') == last_index_of(cs@.take(start as int), '/'),
            decreases start,
        {
            proof {
                assert(cs@.take(start as int).drop_last() =~= cs@.take(start - 1));
            }
            start = start - 1;
        }
        proof {
            let t = cs@.take(end as int);
            if start > 0 {
                assert(cs@.take(start as int).last() == '/');
            }
            assert(last_index_of(t, '/') == start - 1);
            assert(t.skip(start as int) =~= cs@.subrange(start as int, end as int));
        }
        if end - start == 1 && cs[start] == '.' {
            proof {
                assert(cs@.subrange(start as int, end as int) =~= seq!['.']);
            }
            if start == 0 {
                proof {
                    assert(last_component(cs@.take(before as int)) is None);
                }
                return Err(InvalidOutputPath);
            }
            proof {
                let t = cs@.take(end as int);
                assert(t.take(start - 1) =~= cs@.take(start - 1));
                assert(last_component(cs@.take(before as int)) == last_component(
                    cs@.take(start - 1),
                ));
            }
            end = start - 1;
        } else {
            let comp = &cs.as_slice()[start..end];
            proof {
                assert(comp@ =~= cs@.subrange(start as int, end as int));
                if comp@ == seq!['.'] {
                    assert(comp@.len() == 1);
                    assert(comp@[0] == cs@[start as int]);
                }
                assert(last_component(cs@.take(before as int)) == Some(comp@));
            }
            let m = comp.len();
            if m == 2 && comp[0] == '.' && comp[1] == '.' {
                proof {
                    assert(comp@ =~= seq!['.', '.']);
                }
                return Err(InvalidOutputPath);
            }
            proof {
                if comp@ == seq!['.', '.'] {
                    assert(comp@.len() == 2 && comp@[0] == '.' && comp@[1] == '.');
                }
            }
            let mut d: usize = m;
            proof {
                assert(comp@.take(m as int) =~= comp@);
            }
            while d > 0 && comp[d - 1] != '.'
                invariant
                    d <= m,
                    m == comp@.len(),
                    last_index_of(comp@, '.') == last_index_of(comp@.take(d as int), '.'),
                decreases d,
            {
                proof {
                    assert(comp@.take(d as int).drop_last() =~= comp@.take(d - 1));
                }
                d = d - 1;
            }
            proof {
                if d > 0 {
                    assert(comp@.take(d as int).last() == '.');
                }
                assert(last_index_of(comp@, '.') == d - 1);
            }
            if d > 1 {
                return Ok(string_from_chars(&comp[0..d - 1]));
            } else {
                return Ok(string_from_chars(comp));
            }
        }
    }
}

/// The name under which a spritesheet is uploaded: `tungsten_<input>_<index>`.
pub open spec fn spritesheet_name_spec(input_name: Seq<char>, index: nat) -> Seq<char> {
    "tungsten_"@ + input_name + "_"@ + decimal(index)
}

/// A spritesheet's name is `tungsten_`, the input's name, `_`, and then a
/// number that reads back as the sheet's index.
pub proof fn lemma_spritesheet_name_law(input_name: Seq<char>, index: u64)
    ensures
        ({
            let s = spritesheet_name_spec(input_name, index as nat);
            &&& s.take(9) == seq!['t', 'u', 'n', 'g', 's', 't', 'e', 'n', '_']
            &&& s.subrange(9, 9 + input_name.len() as int) == input_name
            &&& s[9 + input_name.len() as int] == '_'
            &&& parse_u64_spec(s.skip(10 + input_name.len() as int)) == Some(index)
        }),
{
    reveal_strlit("tungsten_");
    reveal_strlit("_");
    let s = spritesheet_name_spec(input_name, index as nat);
    let d = decimal(index as nat);
    assert(s.take(9) =~= seq!['t', 'u', 'n', 'g', 's', 't', 'e', 'n', '_']);
    assert(s.subrange(9, 9 + input_name.len() as int) =~= input_name);
    assert(s.skip(10 + input_name.len() as int) =~= d);
    lemma_parse_reads_decimal(index);
}

/// The name under which spritesheet number `index` (counting from 0) of an
/// input is uploaded.
pub fn spritesheet_name(input_name: &str, index: usize) -> (s: String)
    ensures
        s@ == spritesheet_name_spec(input_name@, index as nat),
{
    let mut s = String::from_str("tungsten_");
    s.append(input_name);
    s.append("_");
    let d = to_decimal(index as u64);
    s.append(d.as_str());
    s
}

/// Where an image's asset id comes from.
pub enum AssetSource {
    /// The same image was uploaded before, under this asset id.
    Cached(u64),
    /// The image must be uploaded.
    Upload,
    /// Dry run: nothing is uploaded and the asset id is `DRY_RUN_ASSET_ID`.
    DryRun,
}

/// The asset id written for images in a dry run.
pub const DRY_RUN_ASSET_ID: u64 = 0;

/// The source of the asset id for an image with fingerprint `hash` of input
/// `input` in lockfile `m`.
pub open spec fn asset_source(m: LockMap, uploading: bool, input: Seq<char>, hash: Seq<char>) -> AssetSource {
    if !uploading {
        AssetSource::DryRun
    } else {
        match lookup(m, input, hash) {
            Some(id) => AssetSource::Cached(id),
            None => AssetSource::Upload,
        }
    }
}

/// Decides whether an image is uploaded: only when uploading, and only when
/// the lockfile does not already hold an asset id for its fingerprint.
pub fn plan_asset(lockfile: &Lockfile, uploading: bool, input_name: &str, hash: &str) -> (r: AssetSource)
    requires
        lockfile.wf(),
    ensures
        r == asset_source(lockfile@, uploading, input_name@, hash@),
{
    if !uploading {
        AssetSource::DryRun
    } else {
        match lockfile.get(input_name, hash) {
            Some(id) => AssetSource::Cached(id),
            None => AssetSource::Upload,
        }
    }
}

/// An image is uploaded exactly when the run uploads and the lockfile holds
/// no asset id for its fingerprint under its input (whatever else it holds
/// for that input); a remembered id is reused as it is; a dry run uploads
/// nothing.
pub proof fn lemma_asset_source_law(m: LockMap, uploading: bool, input: Seq<char>, hash: Seq<char>)
    ensures
        !uploading ==> asset_source(m, uploading, input, hash) == AssetSource::DryRun,
        uploading && lookup(m, input, hash) is None ==> asset_source(m, uploading, input, hash)
            == AssetSource::Upload,
        forall|id: u64|
            uploading && lookup(m, input, hash) == Some(id) ==> asset_source(m, uploading, input, hash)
                == AssetSource::Cached(id),
{
}

/// Once an image was uploaded and remembered, the next sync reuses its
/// asset id instead of uploading it again.
pub proof fn lemma_uploaded_image_is_cached(m: LockMap, input: Seq<char>, hash: Seq<char>, id: u64)
    ensures
        asset_source(record(m, input, hash, id), true, input, hash) == AssetSource::Cached(id),
{
}

/// The number of errors met during a sync run.
pub struct SyncTally {
    errors: u32,
}

impl SyncTally {
    /// The errors counted so far.
    pub closed spec fn count(&self) -> u32 {
        self.errors
    }

    /// A run without errors yet.
    pub fn new() -> (t: SyncTally)
        ensures
            t.count() == 0,
    {
        SyncTally { errors: 0 }
    }

    /// Counts one more error.
    pub fn note_error(&mut self)
        requires
            old(self).count() < u32::MAX,
        ensures
            final(self).count() == old(self).count() + 1,
    {
        self.errors = self.errors + 1;
    }

    /// The errors counted so far.
    pub fn errors(&self) -> (n: u32)
        ensures
            n == self.count(),
    {
        self.errors
    }

    /// Whether the run completed without errors.
    pub fn is_clean(&self) -> (b: bool)
        ensures
            b == (self.count() == 0),
    {
        self.errors == 0
    }
}

/// Something that befalls a sync run.
pub enum SyncEvent {
    /// An input's pattern matched no PNG file.
    NoPngMatches,
    /// An input's images could not be loaded.
    LoadFailed,
    /// An input's images could not be packed into spritesheets.
    PackFailed,
    /// An image or spritesheet could not be encoded as PNG.
    EncodeFailed,
    /// An image or spritesheet could not be uploaded.
    UploadFailed,
    /// The lockfile could not be saved.
    SaveFailed,
    /// The generated code could not be written.
    CodegenFailed,
}

/// How a run goes on after an event.
pub enum Recovery {
    /// Leave the rest of this input and go to the next one.
    SkipInput,
    /// Leave this image (it gets no generated entry) and go to the next one.
    SkipImage,
    /// Go on as if nothing happened.
    Carry,
}

/// Whether an event is counted as an error of the run: all but an input
/// without matches (which is only warned about).
pub open spec fn counts_as_error(e: SyncEvent) -> bool {
    !(e is NoPngMatches)
}

/// How the run goes on after an event.
pub open spec fn recovery(e: SyncEvent) -> Recovery {
    match e {
        SyncEvent::NoPngMatches | SyncEvent::LoadFailed | SyncEvent::PackFailed => Recovery::SkipInput,
        SyncEvent::EncodeFailed | SyncEvent::UploadFailed => Recovery::SkipImage,
        SyncEvent::SaveFailed | SyncEvent::CodegenFailed => Recovery::Carry,
    }
}

/// How each event is handled: an input without matches is skipped without
/// counting an error; failing to load or pack skips the input, failing to
/// encode or upload skips the image, and failing to save or write code
/// carries on, each counted as one error.
pub proof fn lemma_recovery_law()
    ensures
        recovery(SyncEvent::NoPngMatches) == Recovery::SkipInput && !counts_as_error(
            SyncEvent::NoPngMatches,
        ),
        recovery(SyncEvent::LoadFailed) == Recovery::SkipInput && counts_as_error(SyncEvent::LoadFailed),
        recovery(SyncEvent::PackFailed) == Recovery::SkipInput && counts_as_error(SyncEvent::PackFailed),
        recovery(SyncEvent::EncodeFailed) == Recovery::SkipImage && counts_as_error(
            SyncEvent::EncodeFailed,
        ),
        recovery(SyncEvent::UploadFailed) == Recovery::SkipImage && counts_as_error(
            SyncEvent::UploadFailed,
        ),
        recovery(SyncEvent::SaveFailed) == Recovery::Carry && counts_as_error(SyncEvent::SaveFailed),
        recovery(SyncEvent::CodegenFailed) == Recovery::Carry && counts_as_error(
            SyncEvent::CodegenFailed,
        ),
{
}

impl SyncTally {
    /// Takes note of an event: counts it when it is an error, and says how
    /// the run goes on.
    pub fn on_event(&mut self, e: SyncEvent) -> (r: Recovery)
        requires
            counts_as_error(e) ==> old(self).count() < u32::MAX,
        ensures
            r == recovery(e),
            final(self).count() == old(self).count() + if counts_as_error(e) {
                1u32
            } else {
                0u32
            },
    {
        match e {
            SyncEvent::NoPngMatches => Recovery::SkipInput,
            SyncEvent::LoadFailed | SyncEvent::PackFailed => {
                self.note_error();
                Recovery::SkipInput
            },
            SyncEvent::EncodeFailed | SyncEvent::UploadFailed => {
                self.note_error();
                Recovery::SkipImage
            },
            SyncEvent::SaveFailed | SyncEvent::CodegenFailed => {
                self.note_error();
                Recovery::Carry
            },
        }
    }
}

/// Whether an input's images are packed into spritesheets (only when the
/// input asks for it).
pub fn packs(packable: Option<bool>) -> (b: bool)
    ensures
        b == (packable == Some(true)),
{
    match packable {
        Some(p) => p,
        None => false,
    }
}

/// What follows an upload attempt.
pub enum Settlement {
    /// The asset id was remembered: save the lockfile now, and use the id.
    SaveAndUse(u64),
    /// The upload failed (counted as an error): the image gets no entry.
    Skip,
}

/// Settles an upload: a successful upload's asset id is remembered in the
/// lockfile, which is then saved at once, and used for the image; a failed
/// upload counts as an error and the image is skipped.
pub fn settle_upload(
    lockfile: &mut Lockfile,
    tally: &mut SyncTally,
    input_name: &str,
    hash: String,
    uploaded: Option<u64>,
) -> (r: Settlement)
    requires
        old(lockfile).wf(),
        uploaded is None ==> old(tally).count() < u32::MAX,
    ensures
        final(lockfile).wf(),
        final(lockfile).version() == old(lockfile).version(),
        match uploaded {
            Some(id) => r == Settlement::SaveAndUse(id)
                && final(lockfile)@ == record(old(lockfile)@, input_name@, hash@, id)
                && final(tally).count() == old(tally).count(),
            None => r == Settlement::Skip && final(lockfile)@ == old(lockfile)@
                && final(tally).count() == old(tally).count() + 1,
        },
{
    match uploaded {
        Some(id) => {
            lockfile.set(input_name, hash, id);
            Settlement::SaveAndUse(id)
        },
        None => {
            tally.on_event(SyncEvent::UploadFailed);
            Settlement::Skip
        },
    }
}

/// An image placed on a spritesheet.
pub struct PlacedSprite {
    pub name: String,
    pub x: u32,
    pub y: u32,
    pub width: u32,
    pub height: u32,
}

/// One line of generated code: an image's asset and its rectangle in it.
pub struct CodegenEntry {
    pub name: String,
    pub asset_id: u64,
    pub rect_offset: (u32, u32),
    pub rect_size: (u32, u32),
}

/// The entry of an image uploaded on its own: the whole asset.
pub fn image_entry(name: String, asset_id: u64, width: u32, height: u32) -> (e: CodegenEntry)
    ensures
        e.name == name,
        e.asset_id == asset_id,
        e.rect_offset == (0u32, 0u32),
        e.rect_size == (width, height),
{
    CodegenEntry { name, asset_id, rect_offset: (0, 0), rect_size: (width, height) }
}

/// Appends, for each image of a spritesheet uploaded as `asset_id`, its entry:
/// its name, the asset, and its position and size on the sheet.
pub fn add_sheet_entries(entries: &mut Vec<CodegenEntry>, sprites: &Vec<PlacedSprite>, asset_id: u64)
    ensures
        final(entries)@.len() == old(entries)@.len() + sprites@.len(),
        forall|k: int| 0 <= k < old(entries)@.len() ==> #[trigger] final(entries)@[k] == old(entries)@[k],
        forall|k: int|
            0 <= k < sprites@.len() ==> {
                let e = #[trigger] final(entries)@[old(entries)@.len() + k];
                let s = sprites@[k];
                &&& e.name == s.name
                &&& e.asset_id == asset_id
                &&& e.rect_offset == (s.x, s.y)
                &&& e.rect_size == (s.width, s.height)
            },
{
    let ghost start = entries@;
    let n = sprites.len();
    let mut i: usize = 0;
    while i < n
        invariant
            n == sprites@.len(),
            i <= n,
            entries@.len() == start.len() + i,
            forall|k: int| 0 <= k < start.len() ==> #[trigger] entries@[k] == start[k],
            forall|k: int|
                0 <= k < i ==> {
                    let e = #[trigger] entries@[start.len() + k];
                    let s = sprites@[k];
                    &&& e.name == s.name
                    &&& e.asset_id == asset_id
                    &&& e.rect_offset == (s.x, s.y)
                    &&& e.rect_size == (s.width, s.height)
                },
        decreases n - i,
    {
        let s = &sprites[i];
        entries.push(
            CodegenEntry {
                name: s.name.clone(),
                asset_id,
                rect_offset: (s.x, s.y),
                rect_size: (s.width, s.height),
            },
        );
        proof {
            assert(entries@[start.len() + i].name == sprites@[i as int].name);
        }
        i = i + 1;
    }
}

} // verus!
