//! The lockfile: for each input, the asset id that Roblox gave each image
//! fingerprint, so that unchanged images are not uploaded twice.

use vstd::prelude::*;
use crate::assoc::{assoc, keys_unique, lemma_assoc_dom, lemma_assoc_index, lemma_assoc_push, lemma_assoc_update};

verus! {

/// The lockfile format version this library writes.
pub const LOCKFILE_VERSION: u32 = 1;

/// One remembered upload.
pub struct LockfileEntry {
    pub asset_id: u64,
}

/// The fingerprints remembered for one input.
struct InputRecords {
    name: String,
    hashes: Vec<(String, LockfileEntry)>,
}

/// Remembered uploads, per input name and image fingerprint.
pub struct Lockfile {
    version: u32,
    inputs: Vec<InputRecords>,
}

/// What the lockfile holds: input name -> (fingerprint -> asset id).
pub type LockMap = Map<Seq<char>, Map<Seq<char>, u64>>;

/// The remembered asset id of `hash` under `input`, if any.
pub open spec fn lookup(m: LockMap, input: Seq<char>, hash: Seq<char>) -> Option<u64> {
    if m.contains_key(input) && m[input].contains_key(hash) {
        Some(m[input][hash])
    } else {
        None
    }
}

/// `m` after remembering `id` for `hash` under `input`; the input's table is
/// created when it is missing, and an earlier id for the same fingerprint is
/// replaced.
pub open spec fn record(m: LockMap, input: Seq<char>, hash: Seq<char>, id: u64) -> LockMap {
    let inner = if m.contains_key(input) {
        m[input]
    } else {
        Map::empty()
    };
    m.insert(input, inner.insert(hash, id))
}

spec fn hash_pairs(v: Seq<(String, LockfileEntry)>) -> Seq<(Seq<char>, u64)> {
    v.map_values(|p: (String, LockfileEntry)| (p.0@, p.1.asset_id))
}

spec fn input_pairs(v: Seq<InputRecords>) -> Seq<(Seq<char>, Map<Seq<char>, u64>)> {
    v.map_values(|r: InputRecords| (r.name@, assoc(hash_pairs(r.hashes@))))
}

spec fn records_wf(v: Seq<InputRecords>) -> bool {
    &&& keys_unique(input_pairs(v))
    &&& forall|i: int|
        0 <= i < v.len() ==> keys_unique(hash_pairs(#[trigger] v[i].hashes@))
}


/// One remembered upload, flattened: (input name, fingerprint, asset id).
pub type LockEntry = (Seq<char>, Seq<char>, u64);

/// The spec view of a list of flattened entries.
pub open spec fn entries_view(es: Seq<(String, String, u64)>) -> Seq<LockEntry> {
    es.map_values(|e: (String, String, u64)| (e.0@, e.1@, e.2))
}

/// `es` lists exactly what `m` remembers: each entry agrees with `m`, every
/// remembered pair is listed, and no (input, fingerprint) pair is listed twice.
pub open spec fn describes(m: LockMap, es: Seq<LockEntry>) -> bool {
    &&& forall|k: int| 0 <= k < es.len() ==> lookup(m, #[trigger] es[k].0, es[k].1) == Some(es[k].2)
    &&& forall|i: Seq<char>, h: Seq<char>|
        #[trigger] lookup(m, i, h) is Some ==> exists|k: int|
            #![trigger es[k]]
            0 <= k < es.len() && es[k].0 == i && es[k].1 == h
    &&& pairs_unique(es)
}

/// No (input, fingerprint) pair is listed twice.
pub open spec fn pairs_unique(es: Seq<LockEntry>) -> bool {
    forall|k1: int, k2: int|
        #![trigger es[k1], es[k2]]
        0 <= k1 < es.len() && 0 <= k2 < es.len() && k1 != k2 ==> es[k1].0 != es[k2].0 || es[k1].1
            != es[k2].1
}

/// `m` with an (empty) table for `input`, unless it already has one.
pub open spec fn register(m: LockMap, input: Seq<char>) -> LockMap {
    if m.contains_key(input) {
        m
    } else {
        m.insert(input, Map::empty())
    }
}

/// Registering every input of `names`, in order, starting from `m`.
pub open spec fn register_all(m: LockMap, names: Seq<Seq<char>>) -> LockMap
    decreases names.len(),
{
    if names.len() == 0 {
        m
    } else {
        register(register_all(m, names.drop_last()), names.last())
    }
}

/// The spec view of a list of names.
pub open spec fn names_view(names: Seq<String>) -> Seq<Seq<char>> {
    names.map_values(|n: String| n@)
}

/// `names` lists the inputs of `m`, each once.
pub open spec fn lists_inputs(m: LockMap, names: Seq<Seq<char>>) -> bool {
    &&& forall|i: Seq<char>| m.contains_key(i) <==> names.contains(i)
    &&& forall|k1: int, k2: int|
        #![trigger names[k1], names[k2]]
        0 <= k1 < names.len() && 0 <= k2 < names.len() && k1 != k2 ==> names[k1] != names[k2]
}

/// Remembering every entry of `es`, in order, starting from `m`.
pub open spec fn record_all(m: LockMap, es: Seq<LockEntry>) -> LockMap
    decreases es.len(),
{
    if es.len() == 0 {
        m
    } else {
        let e = es.last();
        record(record_all(m, es.drop_last()), e.0, e.1, e.2)
    }
}

spec fn flat_hashes(name: Seq<char>, hs: Seq<(String, LockfileEntry)>) -> Seq<LockEntry> {
    hs.map_values(|p: (String, LockfileEntry)| (name, p.0@, p.1.asset_id))
}

spec fn flat_inputs(v: Seq<InputRecords>) -> Seq<LockEntry>
    decreases v.len(),
{
    if v.len() == 0 {
        Seq::empty()
    } else {
        flat_inputs(v.drop_last()) + flat_hashes(v.last().name@, v.last().hashes@)
    }
}

proof fn lemma_records_wf_drop_last(v: Seq<InputRecords>)
    requires
        records_wf(v),
        v.len() > 0,
    ensures
        records_wf(v.drop_last()),
        input_pairs(v.drop_last()) =~= input_pairs(v).drop_last(),
{
    let d = v.drop_last();
    let p = input_pairs(v);
    assert(input_pairs(d) =~= p.drop_last());
    assert forall|a: int, b: int|
        0 <= a < input_pairs(d).len() && 0 <= b < input_pairs(d).len() && a != b implies #[trigger] input_pairs(d)[a].0
        != #[trigger] input_pairs(d)[b].0 by {
        assert(p[a].0 != p[b].0);
    }
    assert forall|i: int| 0 <= i < d.len() implies keys_unique(hash_pairs(#[trigger] d[i].hashes@))
 by {
        assert(d[i] == v[i]);
    }
}

/// The flattened entries of well-formed records describe the records' map,
/// and every entry carries the name of one of the records.
proof fn lemma_flat_describes(v: Seq<InputRecords>)
    requires
        records_wf(v),
    ensures
        describes(assoc(input_pairs(v)), flat_inputs(v)),
        forall|k: int|
            #![trigger flat_inputs(v)[k]]
            0 <= k < flat_inputs(v).len() ==> exists|a: int|
                0 <= a < v.len() && #[trigger] v[a].name@ == flat_inputs(v)[k].0,
    decreases v.len(),
{
    if v.len() == 0 {
        assert(flat_inputs(v) =~= Seq::empty());
        assert(assoc(input_pairs(v)) =~= Map::empty());
    } else {
        let d = v.drop_last();
        let last = v.last();
        let n = (v.len() - 1) as int;
        lemma_records_wf_drop_last(v);
        lemma_flat_describes(d);
        let fd = flat_inputs(d);
        let fl = flat_hashes(last.name@, last.hashes@);
        let f = flat_inputs(v);
        assert(f =~= fd + fl);
        let md = assoc(input_pairs(d));
        let inner = assoc(hash_pairs(last.hashes@));
        let m = assoc(input_pairs(v));
        assert(input_pairs(v).last() == (last.name@, inner));
        assert(m == md.insert(last.name@, inner));
        assert(keys_unique(hash_pairs(v[n].hashes@)));
        // names of earlier records differ from the last one
        assert forall|a: int| 0 <= a < d.len() implies #[trigger] d[a].name@ != last.name@ by {
            assert(input_pairs(v)[a].0 != input_pairs(v)[n].0);
        }
        // every entry carries a record's name
        assert forall|k: int| #![trigger f[k]] 0 <= k < f.len() implies exists|a: int|
            0 <= a < v.len() && #[trigger] v[a].name@ == f[k].0 by {
            if k < fd.len() {
                let a = choose|a: int| 0 <= a < d.len() && #[trigger] d[a].name@ == fd[k].0;
                assert(v[a].name@ == f[k].0);
            } else {
                assert(v[n].name@ == f[k].0);
            }
        }
        // consistency
        assert forall|k: int| 0 <= k < f.len() implies lookup(m, #[trigger] f[k].0, f[k].1) == Some(
            f[k].2,
        ) by {
            if k < fd.len() {
                assert(fd[k] == f[k]);
                let a = choose|a: int| 0 <= a < d.len() && #[trigger] d[a].name@ == fd[k].0;
                assert(d[a].name@ != last.name@);
                assert(lookup(md, fd[k].0, fd[k].1) == Some(fd[k].2));
            } else {
                let b = k - fd.len();
                assert(fl[b] == f[k]);
                lemma_assoc_index(hash_pairs(last.hashes@), b);
                assert(hash_pairs(last.hashes@)[b].0 == fl[b].1);
            }
        }
        // coverage
        assert forall|i: Seq<char>, h: Seq<char>| #[trigger] lookup(m, i, h) is Some implies exists|
            k: int,
        |
            #![trigger f[k]]
            0 <= k < f.len() && f[k].0 == i && f[k].1 == h by {
            if i == last.name@ {
                lemma_assoc_dom(hash_pairs(last.hashes@), h);
                let b = choose|b: int|
                    0 <= b < hash_pairs(last.hashes@).len() && #[trigger] hash_pairs(
                        last.hashes@,
                    )[b].0 == h;
                assert(f[fd.len() + b] == fl[b]);
            } else {
                assert(lookup(md, i, h) is Some);
                let k = choose|k: int| #![trigger fd[k]] 0 <= k < fd.len() && fd[k].0 == i && fd[k].1 == h;
                assert(f[k] == fd[k]);
            }
        }
        // uniqueness
        assert forall|k1: int, k2: int|
            0 <= k1 < f.len() && 0 <= k2 < f.len() && k1 != k2 implies #[trigger] f[k1].0
            != #[trigger] f[k2].0 || f[k1].1 != f[k2].1 by {
            if k1 < fd.len() && k2 < fd.len() {
                assert(f[k1] == fd[k1] && f[k2] == fd[k2]);
            } else if k1 >= fd.len() && k2 >= fd.len() {
                let b1 = k1 - fd.len();
                let b2 = k2 - fd.len();
                assert(hash_pairs(last.hashes@)[b1].0 != hash_pairs(last.hashes@)[b2].0);
            } else if k1 < fd.len() {
                let a = choose|a: int| 0 <= a < d.len() && #[trigger] d[a].name@ == fd[k1].0;
                assert(f[k1] == fd[k1]);
            } else {
                let a = choose|a: int| 0 <= a < d.len() && #[trigger] d[a].name@ == fd[k2].0;
                assert(f[k2] == fd[k2]);
            }
        }
    }
}


proof fn lemma_record_all_describes(base: LockMap, es: Seq<LockEntry>)
    requires
        pairs_unique(es),
        forall|i: Seq<char>, h: Seq<char>| #[trigger] lookup(base, i, h) is None,
    ensures
        describes(record_all(base, es), es),
        forall|i: Seq<char>|
            #[trigger] record_all(base, es).contains_key(i) ==> base.contains_key(i) || exists|k: int|
                #![trigger es[k]]
                0 <= k < es.len() && es[k].0 == i,
        forall|i: Seq<char>| base.contains_key(i) ==> #[trigger] record_all(base, es).contains_key(i),
    decreases es.len(),
{
    let r = record_all(base, es);
    if es.len() > 0 {
        let d = es.drop_last();
        let e = es.last();
        let n = es.len() - 1;
        assert(pairs_unique(d)) by {
            assert forall|k1: int, k2: int|
                #![trigger d[k1], d[k2]]
                0 <= k1 < d.len() && 0 <= k2 < d.len() && k1 != k2 implies d[k1].0 != d[k2].0
                || d[k1].1 != d[k2].1 by {
                assert(es[k1] == d[k1] && es[k2] == d[k2]);
            }
        }
        lemma_record_all_describes(base, d);
        let rd = record_all(base, d);
        assert(r == record(rd, e.0, e.1, e.2));
        assert forall|k: int| 0 <= k < es.len() implies lookup(r, #[trigger] es[k].0, es[k].1)
            == Some(es[k].2) by {
            if k < n {
                assert(es[k] == d[k]);
                assert(es[k].0 != es[n].0 || es[k].1 != es[n].1);
            }
        }
        assert forall|i: Seq<char>, h: Seq<char>| #[trigger] lookup(r, i, h) is Some implies exists|
            k: int,
        |
            #![trigger es[k]]
            0 <= k < es.len() && es[k].0 == i && es[k].1 == h by {
            if i == e.0 && h == e.1 {
                assert(es[n] == e);
            } else {
                assert(lookup(rd, i, h) is Some);
                let k = choose|k: int| #![trigger d[k]] 0 <= k < d.len() && d[k].0 == i && d[k].1 == h;
                assert(es[k] == d[k]);
            }
        }
        assert forall|i: Seq<char>| #[trigger] r.contains_key(i) implies base.contains_key(i) || exists|k: int|
            #![trigger es[k]]
            0 <= k < es.len() && es[k].0 == i by {
            if i == e.0 {
                assert(es[n] == e);
            } else if !base.contains_key(i) {
                let k = choose|k: int| #![trigger d[k]] 0 <= k < d.len() && d[k].0 == i;
                assert(es[k] == d[k]);
            }
        }
    }
}

proof fn lemma_register_all(names: Seq<Seq<char>>)
    ensures
        forall|i: Seq<char>, h: Seq<char>|
            #[trigger] lookup(register_all(Map::empty(), names), i, h) is None,
        forall|i: Seq<char>|
            #[trigger] register_all(Map::empty(), names).contains_key(i) <==> names.contains(i),
    decreases names.len(),
{
    if names.len() > 0 {
        let d = names.drop_last();
        lemma_register_all(d);
        let rd = register_all(Map::empty(), d);
        assert forall|i: Seq<char>|
            #[trigger] register_all(Map::empty(), names).contains_key(i) <==> names.contains(i) by {
            if d.contains(i) {
                let k = choose|k: int| 0 <= k < d.len() && d[k] == i;
                assert(names[k] == i);
            }
            if names.contains(i) && i != names.last() {
                let k = choose|k: int| 0 <= k < names.len() && names[k] == i;
                assert(d[k] == i);
            }
            if i == names.last() {
                assert(names[names.len() - 1] == i);
            }
        }
        assert forall|i: Seq<char>, h: Seq<char>|
            #[trigger] lookup(register_all(Map::empty(), names), i, h) is None by {
            assert(lookup(rd, i, h) is None);
        }
    }
}

/// Rebuilding a lockfile from a complete listing of its inputs and of its
/// entries (as saving and loading do) gives back exactly what it remembered,
/// inputs without fingerprints included.
pub proof fn lemma_entries_round_trip(m: LockMap, names: Seq<Seq<char>>, es: Seq<LockEntry>)
    requires
        lists_inputs(m, names),
        describes(m, es),
    ensures
        record_all(register_all(Map::empty(), names), es) == m,
{
    lemma_register_all(names);
    let base = register_all(Map::empty(), names);
    lemma_record_all_describes(base, es);
    let r = record_all(base, es);
    assert forall|i: Seq<char>, h: Seq<char>| #[trigger] lookup(r, i, h) == lookup(m, i, h) by {
        if lookup(m, i, h) is Some {
            let k = choose|k: int| #![trigger es[k]] 0 <= k < es.len() && es[k].0 == i && es[k].1 == h;
            assert(lookup(r, es[k].0, es[k].1) == Some(es[k].2));
        } else if lookup(r, i, h) is Some {
            let k = choose|k: int| #![trigger es[k]] 0 <= k < es.len() && es[k].0 == i && es[k].1 == h;
            assert(lookup(m, es[k].0, es[k].1) == Some(es[k].2));
        }
    }
    assert forall|i: Seq<char>| r.contains_key(i) <==> m.contains_key(i) by {
        if r.contains_key(i) && !base.contains_key(i) {
            let k = choose|k: int| #![trigger es[k]] 0 <= k < es.len() && es[k].0 == i;
            assert(lookup(m, es[k].0, es[k].1) == Some(es[k].2));
        }
        if m.contains_key(i) {
            assert(names.contains(i));
            assert(base.contains_key(i));
        }
    }
    assert forall|i: Seq<char>| #[trigger] r.contains_key(i) implies r[i] =~= m[i] by {
        assert forall|h: Seq<char>| r[i].contains_key(h) <==> m[i].contains_key(h) by {
            assert(lookup(r, i, h) == lookup(m, i, h));
        }
        assert forall|h: Seq<char>| #[trigger] r[i].contains_key(h) implies r[i][h] == m[i][h] by {
            assert(lookup(r, i, h) == lookup(m, i, h));
        }
    }
    assert(r =~= m);
}

impl View for Lockfile {
    type V = LockMap;

    closed spec fn view(&self) -> LockMap {
        assoc(input_pairs(self.inputs@))
    }
}

fn find_hash(hashes: &Vec<(String, LockfileEntry)>, hash: &String) -> (r: Option<usize>)
    ensures
        match r {
            Some(j) => j < hashes@.len() && hashes@[j as int].0@ == hash@,
            None => forall|j: int| 0 <= j < hashes@.len() ==> #[trigger] hashes@[j].0@ != hash@,
        },
{
    let n = hashes.len();
    let mut j: usize = 0;
    while j < n
        invariant
            n == hashes@.len(),
            j <= n,
            forall|k: int| 0 <= k < j ==> #[trigger] hashes@[k].0@ != hash@,
        decreases n - j,
    {
        if hashes[j].0 == *hash {
            return Some(j);
        }
        j = j + 1;
    }
    None
}

impl Lockfile {
    /// The format version recorded in the lockfile.
    pub closed spec fn spec_version(&self) -> u32 {
        self.version
    }

    /// The format version recorded in the lockfile.
    #[verifier::when_used_as_spec(spec_version)]
    pub fn version(&self) -> (v: u32)
        ensures
            v == self.spec_version(),
    {
        self.version
    }

    /// Unique input names, unique fingerprints within each input, and no
    /// input without fingerprints.
    pub closed spec fn wf(&self) -> bool {
        records_wf(self.inputs@)
    }

    /// An empty lockfile of the current format version (what is used when no
    /// lockfile exists yet).
    pub fn new() -> (l: Lockfile)
        ensures
            l.wf(),
            l.version() == LOCKFILE_VERSION,
            l@ == Map::<Seq<char>, Map<Seq<char>, u64>>::empty(),
    {
        let l = Lockfile { version: LOCKFILE_VERSION, inputs: Vec::new() };
        proof {
            assert(input_pairs(l.inputs@) =~= Seq::empty());
        }
        l
    }

    /// An empty lockfile that carries the given format version.
    pub fn with_version(version: u32) -> (l: Lockfile)
        ensures
            l.wf(),
            l.version() == version,
            l@ == Map::<Seq<char>, Map<Seq<char>, u64>>::empty(),
    {
        let l = Lockfile { version, inputs: Vec::new() };
        proof {
            assert(input_pairs(l.inputs@) =~= Seq::empty());
        }
        l
    }

    fn find_input(&self, name: &String) -> (r: Option<usize>)
        ensures
            match r {
                Some(i) => i < self.inputs@.len() && self.inputs@[i as int].name@ == name@,
                None => forall|i: int|
                    0 <= i < self.inputs@.len() ==> #[trigger] self.inputs@[i].name@ != name@,
            },
    {
        let n = self.inputs.len();
        let mut i: usize = 0;
        while i < n
            invariant
                n == self.inputs@.len(),
                i <= n,
                forall|k: int| 0 <= k < i ==> #[trigger] self.inputs@[k].name@ != name@,
            decreases n - i,
        {
            if self.inputs[i].name == *name {
                return Some(i);
            }
            i = i + 1;
        }
        None
    }

    /// The asset id remembered for fingerprint `hash` of input `input_name`.
    pub fn get(&self, input_name: &str, hash: &str) -> (r: Option<u64>)
        requires
            self.wf(),
        ensures
            r == lookup(self@, input_name@, hash@),
    {
        let name = input_name.to_owned();
        let h = hash.to_owned();
        match self.find_input(&name) {
            None => {
                proof {
                    let s = input_pairs(self.inputs@);
                    lemma_assoc_dom(s, name@);
                    assert forall|i: int| 0 <= i < s.len() implies #[trigger] s[i].0 != name@ by {
                        assert(self.inputs@[i].name@ != name@);
                    }
                }
                None
            },
            Some(i) => {
                let hashes = &self.inputs[i].hashes;
                proof {
                    lemma_assoc_index(input_pairs(self.inputs@), i as int);
                    assert(keys_unique(hash_pairs(self.inputs@[i as int].hashes@)));
                }
                match find_hash(hashes, &h) {
                    None => {
                        proof {
                            let s = hash_pairs(hashes@);
                            lemma_assoc_dom(s, h@);
                            assert forall|j: int| 0 <= j < s.len() implies #[trigger] s[j].0 != h@ by {
                                assert(hashes@[j].0@ != h@);
                            }
                        }
                        None
                    },
                    Some(j) => {
                        proof {
                            lemma_assoc_index(hash_pairs(hashes@), j as int);
                        }
                        Some(hashes[j].1.asset_id)
                    },
                }
            },
        }
    }
    /// Every remembered upload, as (input name, fingerprint, asset id); this
    /// is what gets written when the lockfile is saved.
    pub fn entries(&self) -> (es: Vec<(String, String, u64)>)
        requires
            self.wf(),
        ensures
            describes(self@, entries_view(es@)),
    {
        let mut es: Vec<(String, String, u64)> = Vec::new();
        let n = self.inputs.len();
        let mut i: usize = 0;
        while i < n
            invariant
                n == self.inputs@.len(),
                i <= n,
                entries_view(es@) =~= flat_inputs(self.inputs@.take(i as int)),
            decreases n - i,
        {
            let rec = &self.inputs[i];
            let m = rec.hashes.len();
            let mut j: usize = 0;
            while j < m
                invariant
                    n == self.inputs@.len(),
                    i < n,
                    *rec == self.inputs@[i as int],
                    m == rec.hashes@.len(),
                    j <= m,
                    entries_view(es@) =~= flat_inputs(self.inputs@.take(i as int)) + flat_hashes(
                        rec.name@,
                        rec.hashes@.take(j as int),
                    ),
                decreases m - j,
            {
                let pair = &rec.hashes[j];
                let ghost before = es@;
                es.push((rec.name.clone(), pair.0.clone(), pair.1.asset_id));
                proof {
                    assert(entries_view(es@) =~= entries_view(before).push(
                        (rec.name@, pair.0@, pair.1.asset_id),
                    ));
                    assert(flat_hashes(rec.name@, rec.hashes@.take(j + 1)) =~= flat_hashes(
                        rec.name@,
                        rec.hashes@.take(j as int),
                    ).push((rec.name@, pair.0@, pair.1.asset_id)));
                }
                j = j + 1;
            }
            proof {
                let t = self.inputs@.take(i + 1);
                assert(t.drop_last() =~= self.inputs@.take(i as int));
                assert(rec.hashes@.take(m as int) =~= rec.hashes@);
            }
            i = i + 1;
        }
        proof {
            assert(self.inputs@.take(n as int) =~= self.inputs@);
            lemma_flat_describes(self.inputs@);
        }
        es
    }

    /// The names of the inputs the lockfile holds a table for (with or
    /// without fingerprints), each once.
    pub fn input_names(&self) -> (names: Vec<String>)
        requires
            self.wf(),
        ensures
            lists_inputs(self@, names_view(names@)),
    {
        let mut names: Vec<String> = Vec::new();
        let n = self.inputs.len();
        let mut i: usize = 0;
        while i < n
            invariant
                n == self.inputs@.len(),
                i <= n,
                names@.len() == i,
                forall|k: int| 0 <= k < i ==> #[trigger] names@[k]@ == self.inputs@[k].name@,
            decreases n - i,
        {
            names.push(self.inputs[i].name.clone());
            i = i + 1;
        }
        proof {
            let p = input_pairs(self.inputs@);
            let nv = names_view(names@);
            assert forall|nm: Seq<char>| self@.contains_key(nm) <==> nv.contains(nm) by {
                lemma_assoc_dom(p, nm);
                if self@.contains_key(nm) {
                    let a = choose|a: int| 0 <= a < p.len() && #[trigger] p[a].0 == nm;
                    assert(nv[a] == nm);
                }
                if nv.contains(nm) {
                    let a = choose|a: int| 0 <= a < nv.len() && nv[a] == nm;
                    assert(p[a].0 == nm);
                }
            }
            assert forall|k1: int, k2: int|
                #![trigger nv[k1], nv[k2]]
                0 <= k1 < nv.len() && 0 <= k2 < nv.len() && k1 != k2 implies nv[k1] != nv[k2] by {
                assert(p[k1].0 != p[k2].0);
            }
        }
        names
    }

    /// Gives `input_name` a table, empty when it had none (an input that
    /// already has a table keeps it unchanged).
    pub fn add_input(&mut self, input_name: &str)
        requires
            old(self).wf(),
        ensures
            final(self).wf(),
            final(self).version() == old(self).version(),
            final(self)@ == register(old(self)@, input_name@),
    {
        let name = input_name.to_owned();
        let ghost old_inputs = self.inputs@;
        let ghost outer = input_pairs(old_inputs);
        match self.find_input(&name) {
            Some(i) => {
                proof {
                    lemma_assoc_index(outer, i as int);
                }
            },
            None => {
                let hashes: Vec<(String, LockfileEntry)> = Vec::new();
                proof {
                    assert(hash_pairs(hashes@) =~= Seq::<(Seq<char>, u64)>::empty());
                    assert(assoc(Seq::<(Seq<char>, u64)>::empty()) =~= Map::empty());
                    assert forall|i: int| 0 <= i < outer.len() implies #[trigger] outer[i].0 != name@ by {
                        assert(old_inputs[i].name@ != name@);
                    }
                    lemma_assoc_dom(outer, name@);
                    lemma_assoc_push(outer, name@, Map::<Seq<char>, u64>::empty());
                }
                self.inputs.push(InputRecords { name, hashes });
                proof {
                    assert(input_pairs(self.inputs@) =~= outer.push((name@, Map::<Seq<char>, u64>::empty())));
                    assert forall|i: int| 0 <= i < self.inputs@.len() implies keys_unique(
                        hash_pairs(#[trigger] self.inputs@[i].hashes@),
                    ) by {
                        if i < old_inputs.len() {
                            assert(self.inputs@[i] == old_inputs[i]);
                        }
                    }
                }
            },
        }
    }

    /// A lockfile of the given format version that has a table for each of
    /// `inputs` and remembers the listed uploads, recorded in order (what
    /// loading a saved lockfile does).
    pub fn from_parts(
        version: u32,
        inputs: &Vec<String>,
        es: &Vec<(String, String, u64)>,
    ) -> (l: Lockfile)
        ensures
            l.wf(),
            l.version() == version,
            l@ == record_all(register_all(Map::empty(), names_view(inputs@)), entries_view(es@)),
    {
        let mut l = Lockfile::with_version(version);
        let m = inputs.len();
        let mut j: usize = 0;
        while j < m
            invariant
                m == inputs@.len(),
                j <= m,
                l.wf(),
                l.version() == version,
                l@ == register_all(Map::empty(), names_view(inputs@).take(j as int)),
            decreases m - j,
        {
            l.add_input(inputs[j].as_str());
            proof {
                let t = names_view(inputs@).take(j + 1);
                assert(t.drop_last() =~= names_view(inputs@).take(j as int));
            }
            j = j + 1;
        }
        proof {
            assert(names_view(inputs@).take(m as int) =~= names_view(inputs@));
        }
        let ghost base = l@;
        let n = es.len();
        let mut k: usize = 0;
        while k < n
            invariant
                n == es@.len(),
                k <= n,
                l.wf(),
                l.version() == version,
                l@ == record_all(base, entries_view(es@).take(k as int)),
            decreases n - k,
        {
            let e = &es[k];
            l.set(e.0.as_str(), e.1.clone(), e.2);
            proof {
                let t = entries_view(es@).take(k + 1);
                assert(t.drop_last() =~= entries_view(es@).take(k as int));
            }
            k = k + 1;
        }
        proof {
            assert(entries_view(es@).take(n as int) =~= entries_view(es@));
        }
        l
    }

    /// Remembers `asset_id` for fingerprint `hash` of input `input_name`,
    /// creating the input's table when missing and replacing an earlier id.
    pub fn set(&mut self, input_name: &str, hash: String, asset_id: u64)
        requires
            old(self).wf(),
        ensures
            final(self).wf(),
            final(self).version() == old(self).version(),
            final(self)@ == record(old(self)@, input_name@, hash@, asset_id),
    {
        let name = input_name.to_owned();
        let ghost old_inputs = self.inputs@;
        let ghost outer = input_pairs(old_inputs);
        match self.find_input(&name) {
            None => {
                let mut hashes: Vec<(String, LockfileEntry)> = Vec::new();
                let ghost h_view = hash@;
                hashes.push((hash, LockfileEntry { asset_id }));
                proof {
                    assert(hash_pairs(hashes@) =~= seq![(h_view, asset_id)]);
                    lemma_assoc_push(Seq::<(Seq<char>, u64)>::empty(), h_view, asset_id);
                    assert(Seq::<(Seq<char>, u64)>::empty().push((h_view, asset_id)) =~= hash_pairs(hashes@));
                    assert(assoc(Seq::<(Seq<char>, u64)>::empty()) =~= Map::empty());
                    assert forall|i: int| 0 <= i < outer.len() implies #[trigger] outer[i].0 != name@ by {
                        assert(old_inputs[i].name@ != name@);
                    }
                    lemma_assoc_dom(outer, name@);
                    lemma_assoc_push(outer, name@, assoc(hash_pairs(hashes@)));
                }
                let rec = InputRecords { name, hashes };
                self.inputs.push(rec);
                proof {
                    assert(input_pairs(self.inputs@) =~= outer.push((name@, assoc(hash_pairs(hashes@)))));
                    assert forall|i: int| 0 <= i < self.inputs@.len() implies keys_unique(
                        hash_pairs(#[trigger] self.inputs@[i].hashes@),
                    ) by {
                        if i < old_inputs.len() {
                            assert(self.inputs@[i] == old_inputs[i]);
                        }
                    }
                }
            },
            Some(i) => {
                proof {
                    lemma_assoc_index(outer, i as int);
                    assert(keys_unique(hash_pairs(old_inputs[i as int].hashes@)));
                }
                let ghost old_hashes = self.inputs@[i as int].hashes@;
                let ghost inner = hash_pairs(old_hashes);
                let ghost h_view = hash@;
                let found = find_hash(&self.inputs[i].hashes, &hash);
                let ghost new_inner_map = assoc(inner).insert(h_view, asset_id);
                match found {
                    Some(j) => {
                        proof {
                            lemma_assoc_update(inner, j as int, asset_id);
                        }
                        self.inputs[i].hashes.set(j, (hash, LockfileEntry { asset_id }));
                        proof {
                            assert(hash_pairs(self.inputs@[i as int].hashes@) =~= inner.update(
                                j as int,
                                (inner[j as int].0, asset_id),
                            ));
                        }
                    },
                    None => {
                        proof {
                            assert forall|k: int| 0 <= k < inner.len() implies #[trigger] inner[k].0 != h_view by {
                                assert(old_hashes[k].0@ != h_view);
                            }
                            lemma_assoc_push(inner, h_view, asset_id);
                        }
                        self.inputs[i].hashes.push((hash, LockfileEntry { asset_id }));
                        proof {
                            assert(hash_pairs(self.inputs@[i as int].hashes@) =~= inner.push((h_view, asset_id)));
                        }
                    },
                }
                proof {
                    assert(assoc(hash_pairs(self.inputs@[i as int].hashes@)) == new_inner_map);
                    assert(self.inputs@[i as int].name == old_inputs[i as int].name);
                    lemma_assoc_update(outer, i as int, new_inner_map);
                    assert(input_pairs(self.inputs@) =~= outer.update(i as int, (outer[i as int].0, new_inner_map)));
                    assert forall|k: int| 0 <= k < self.inputs@.len() implies keys_unique(
                        hash_pairs(#[trigger] self.inputs@[k].hashes@),
                    ) by {
                        if k != i {
                            assert(self.inputs@[k] == old_inputs[k]);
                        }
                    }
                }
            },
        }
    }
}

impl Default for Lockfile {
    /// An empty lockfile with format version 0.
    fn default() -> (l: Lockfile)
        ensures
            l.wf(),
            l.version() == 0,
            l@ == Map::<Seq<char>, Map<Seq<char>, u64>>::empty(),
    {
        Lockfile::with_version(0)
    }
}

/// A fresh lockfile remembers nothing.
pub proof fn lemma_fresh_lookup_none(input: Seq<char>, hash: Seq<char>)
    ensures
        lookup(Map::empty(), input, hash) == None::<u64>,
{
}

/// Reading back what was just remembered gives the remembered asset id.
pub proof fn lemma_lookup_after_record(m: LockMap, input: Seq<char>, hash: Seq<char>, id: u64)
    ensures
        lookup(record(m, input, hash, id), input, hash) == Some(id),
{
}

/// Remembering one fingerprint leaves every other (input, fingerprint) pair
/// as it was.
pub proof fn lemma_record_keeps_others(
    m: LockMap,
    input: Seq<char>,
    hash: Seq<char>,
    id: u64,
    other_input: Seq<char>,
    other_hash: Seq<char>,
)
    requires
        input != other_input || hash != other_hash,
    ensures
        lookup(record(m, input, hash, id), other_input, other_hash) == lookup(
            m,
            other_input,
            other_hash,
        ),
{
}

/// Remembering twice for the same fingerprint keeps only the later id.
pub proof fn lemma_record_overwrites(
    m: LockMap,
    input: Seq<char>,
    hash: Seq<char>,
    first: u64,
    second: u64,
)
    ensures
        record(record(m, input, hash, first), input, hash, second) == record(
            m,
            input,
            hash,
            second,
        ),
{
    let inner = if m.contains_key(input) {
        m[input]
    } else {
        Map::empty()
    };
    assert(inner.insert(hash, first).insert(hash, second) =~= inner.insert(hash, second));
    assert(record(record(m, input, hash, first), input, hash, second) =~= record(
        m,
        input,
        hash,
        second,
    ));
}

} // verus!
