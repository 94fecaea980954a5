use vstd::prelude::*;
use std::collections::HashMap;
use crate::hashing::{hash_of, id_from_str};
use crate::storage::{Info, InfoV, ObjectHash, ObjectHashV, views_of};

verus! {

broadcast use vstd::std_specs::hash::group_hash_axioms, vstd::seq_lib::lemma_seq_contains_after_push;

pub type Id = u64;

/// The in-memory reverse index: report metadata plus links from each
/// hash identifier to the reports and object names it occurs in.
pub struct RecordSet {
    reports: HashMap<Id, Info>,
    name_ids: HashMap<Id, String>,
    hash_ids: HashMap<Id, String>,
    hash_to_name: HashMap<Id, Vec<Id>>,
    hash_to_report: HashMap<Id, Vec<Id>>,
}

/// The mathematical value of a `RecordSet`: link targets are sets, since
/// their order carries no meaning.
#[verifier::ext_equal]
pub struct RecordSetV {
    pub reports: Map<Id, InfoV>,
    pub name_ids: Map<Id, Seq<char>>,
    pub hash_ids: Map<Id, Seq<char>>,
    pub hash_to_name: Map<Id, Set<Id>>,
    pub hash_to_report: Map<Id, Set<Id>>,
}

impl View for RecordSet {
    type V = RecordSetV;

    closed spec fn view(&self) -> RecordSetV {
        RecordSetV {
            reports: self.reports@.map_values(|i: Info| i@),
            name_ids: self.name_ids@.map_values(|s: String| s@),
            hash_ids: self.hash_ids@.map_values(|s: String| s@),
            hash_to_name: self.hash_to_name@.map_values(|v: Vec<Id>| v@.to_set()),
            hash_to_report: self.hash_to_report@.map_values(|v: Vec<Id>| v@.to_set()),
        }
    }
}

impl RecordSetV {
    /// Well-formedness of the abstract index: no dangling links, link maps
    /// share one domain keyed by interned hashes, and every interned string
    /// hashes to its own key.
    pub open spec fn wf(self) -> bool {
        &&& forall|h: Id, r: Id|
            self.hash_to_report.contains_key(h) && (#[trigger] self.hash_to_report[h].contains(r))
                ==> self.reports.contains_key(r)
        &&& forall|h: Id, n: Id|
            self.hash_to_name.contains_key(h) && (#[trigger] self.hash_to_name[h].contains(n))
                ==> self.name_ids.contains_key(n)
        &&& self.hash_to_report.dom() == self.hash_to_name.dom()
        &&& forall|h: Id| #[trigger]
            self.hash_to_report.contains_key(h) ==> self.hash_ids.contains_key(h)
        &&& forall|r: Id| #[trigger]
            self.reports.contains_key(r) ==> hash_of(self.reports[r].id) == r
        &&& forall|n: Id| #[trigger]
            self.name_ids.contains_key(n) ==> hash_of(self.name_ids[n]) == n
        &&& forall|h: Id| #[trigger]
            self.hash_ids.contains_key(h) ==> hash_of(self.hash_ids[h]) == h
    }

    pub open spec fn empty() -> RecordSetV {
        RecordSetV {
            reports: Map::empty(),
            name_ids: Map::empty(),
            hash_ids: Map::empty(),
            hash_to_name: Map::empty(),
            hash_to_report: Map::empty(),
        }
    }

    /// The link set stored under `k`, or the empty set.
    pub open spec fn set_at(m: Map<Id, Set<Id>>, k: Id) -> Set<Id> {
        if m.contains_key(k) {
            m[k]
        } else {
            Set::empty()
        }
    }

    /// What indexing one record of report `rid` does: intern its name and
    /// hash, then link the hash to the report and to the name.
    pub open spec fn add_one(self, rid: Id, o: ObjectHashV) -> RecordSetV {
        let nid = hash_of(o.name);
        let hid = hash_of(o.hash);
        RecordSetV {
            reports: self.reports,
            name_ids: if self.name_ids.contains_key(nid) {
                self.name_ids
            } else {
                self.name_ids.insert(nid, o.name)
            },
            hash_ids: if self.hash_ids.contains_key(hid) {
                self.hash_ids
            } else {
                self.hash_ids.insert(hid, o.hash)
            },
            hash_to_name: self.hash_to_name.insert(
                hid,
                Self::set_at(self.hash_to_name, hid).insert(nid),
            ),
            hash_to_report: self.hash_to_report.insert(
                hid,
                Self::set_at(self.hash_to_report, hid).insert(rid),
            ),
        }
    }

    /// Indexing all records of report `rid`, in order.
    pub open spec fn add_links(self, rid: Id, os: Seq<ObjectHashV>) -> RecordSetV
        decreases os.len(),
    {
        if os.len() == 0 {
            self
        } else {
            self.add_one(rid, os[0]).add_links(rid, os.drop_first())
        }
    }

    /// What `RecordSet::insert` does: nothing if the report identifier is
    /// already present (first writer wins); otherwise index every record and
    /// store the metadata.
    pub open spec fn spec_insert(self, info: InfoV, os: Seq<ObjectHashV>) -> RecordSetV {
        let rid = hash_of(info.id);
        if self.reports.contains_key(rid) {
            self
        } else {
            let linked = self.add_links(rid, os);
            RecordSetV { reports: linked.reports.insert(rid, info), ..linked }
        }
    }

    /// Well-formedness while report `rid` is being indexed: links may already
    /// point at `rid` although its metadata is not stored yet.
    pub open spec fn wf_pending(self, rid: Id) -> bool {
        &&& forall|h: Id, r: Id|
            self.hash_to_report.contains_key(h) && (#[trigger] self.hash_to_report[h].contains(r))
                ==> self.reports.contains_key(r) || r == rid
        &&& forall|h: Id, n: Id|
            self.hash_to_name.contains_key(h) && (#[trigger] self.hash_to_name[h].contains(n))
                ==> self.name_ids.contains_key(n)
        &&& self.hash_to_report.dom() == self.hash_to_name.dom()
        &&& forall|h: Id| #[trigger]
            self.hash_to_report.contains_key(h) ==> self.hash_ids.contains_key(h)
        &&& forall|r: Id| #[trigger]
            self.reports.contains_key(r) ==> hash_of(self.reports[r].id) == r
        &&& forall|n: Id| #[trigger]
            self.name_ids.contains_key(n) ==> hash_of(self.name_ids[n]) == n
        &&& forall|h: Id| #[trigger]
            self.hash_ids.contains_key(h) ==> hash_of(self.hash_ids[h]) == h
    }

    /// The infos of all reports linked to hash identifier `hid`.
    pub open spec fn report_infos(self, hid: Id) -> Set<InfoV> {
        Set::new(
            |iv: InfoV|
                exists|rid: Id|
                    #![all_triggers]
                    Self::set_at(self.hash_to_report, hid).contains(rid)
                        && self.reports.contains_key(rid) && self.reports[rid] == iv,
        )
    }

    /// The object names ever associated with hash identifier `hid`.
    pub open spec fn hash_names(self, hid: Id) -> Set<Seq<char>> {
        Set::new(
            |nm: Seq<char>|
                exists|nid: Id|
                    #![all_triggers]
                    Self::set_at(self.hash_to_name, hid).contains(nid)
                        && self.name_ids.contains_key(nid) && self.name_ids[nid] == nm,
        )
    }
}

/// The values of a sequence of borrowed infos.
pub open spec fn info_views(s: Seq<&Info>) -> Seq<InfoV> {
    s.map_values(|i: &Info| i@)
}

/// The values of a sequence of borrowed strings.
pub open spec fn string_views(s: Seq<&String>) -> Seq<Seq<char>> {
    s.map_values(|t: &String| t@)
}

/// Whether `v` holds `x`.
fn vec_contains(v: &Vec<Id>, x: Id) -> (r: bool)
    ensures
        r == v@.contains(x),
{
    let mut i: usize = 0;
    while i < v.len()
        invariant
            0 <= i <= v@.len(),
            forall|k: int| 0 <= k < i ==> v@[k] != x,
        decreases v@.len() - i,
    {
        if v[i] == x {
            return true;
        }
        i += 1;
    }
    false
}

impl RecordSet {
    /// Representation invariant beyond the abstract `wf`: link vectors hold
    /// no duplicate identifiers.
    pub closed spec fn wf(&self) -> bool {
        &&& self@.wf()
        &&& forall|h: Id| #[trigger]
            self.hash_to_report@.contains_key(h) ==> self.hash_to_report@[h]@.no_duplicates()
        &&& forall|h: Id| #[trigger]
            self.hash_to_name@.contains_key(h) ==> self.hash_to_name@[h]@.no_duplicates()
    }

    /// The abstract value of a well-formed `RecordSet` is well-formed.
    pub proof fn lemma_wf_view(&self)
        requires
            self.wf(),
        ensures
            self@.wf(),
    {
    }

    pub fn new() -> (r: RecordSet)
        ensures
            r.wf(),
            r@ == RecordSetV::empty(),
    {
        let r = RecordSet {
            reports: HashMap::new(),
            name_ids: HashMap::new(),
            hash_ids: HashMap::new(),
            hash_to_name: HashMap::new(),
            hash_to_report: HashMap::new(),
        };
        proof {
            assert(r@ =~~= RecordSetV::empty());
        }
        r
    }

    /// Representation invariant during indexing: `wf_pending` plus duplicate-free
    /// link vectors.
    spec fn wf_mid(&self, rid: Id) -> bool {
        &&& self@.wf_pending(rid)
        &&& forall|h: Id| #[trigger]
            self.hash_to_report@.contains_key(h) ==> self.hash_to_report@[h]@.no_duplicates()
        &&& forall|h: Id| #[trigger]
            self.hash_to_name@.contains_key(h) ==> self.hash_to_name@[h]@.no_duplicates()
    }

    /// Inserts a report: if its identifier is new, interns every record's name
    /// and hash, links the hash to the report and the name, and stores the
    /// metadata; if the identifier is already present, changes nothing.
    /// Returns true iff the report was new.
    pub fn insert(&mut self, info: &Info, objects: &[ObjectHash]) -> (changed: bool)
        requires
            old(self).wf(),
        ensures
            final(self).wf(),
            changed == !old(self)@.reports.contains_key(hash_of(info@.id)),
            final(self)@ == old(self)@.spec_insert(info@, views_of(objects@)),
    {
        let report_id = id_from_str(info.id.as_str());
        if self.reports.contains_key(&report_id) {
            return false;
        }
        let ghost orig: RecordSetV = self@;
        let ghost osv: Seq<ObjectHashV> = views_of(objects@);
        proof {
            assert(osv.skip(0) =~= osv);
        }
        let mut i: usize = 0;
        while i < objects.len()
            invariant
                0 <= i <= objects@.len(),
                osv == views_of(objects@),
                osv.len() == objects@.len(),
                self.wf_mid(report_id),
                self@.reports == orig.reports,
                !self@.reports.contains_key(report_id),
                self@.add_links(report_id, osv.skip(i as int)) == orig.add_links(report_id, osv),
            decreases objects@.len() - i,
        {
            let ghost pre: RecordSetV = self@;
            let o = &objects[i];
            let name_id = id_from_str(o.name.as_str());
            let hash_id = id_from_str(o.hash.as_str());
            if !self.name_ids.contains_key(&name_id) {
                self.name_ids.insert(name_id, o.name.clone());
            }
            if !self.hash_ids.contains_key(&hash_id) {
                self.hash_ids.insert(hash_id, o.hash.clone());
            }
            let mut rv: Vec<Id> = match self.hash_to_report.remove(&hash_id) {
                Some(v) => v,
                None => Vec::new(),
            };
            if !vec_contains(&rv, report_id) {
                rv.push(report_id);
            }
            self.hash_to_report.insert(hash_id, rv);
            let mut nv: Vec<Id> = match self.hash_to_name.remove(&hash_id) {
                Some(v) => v,
                None => Vec::new(),
            };
            if !vec_contains(&nv, name_id) {
                nv.push(name_id);
            }
            self.hash_to_name.insert(hash_id, nv);
            proof {
                assert(osv[i as int] == objects@[i as int]@);
                assert(self@.hash_to_report[hash_id] =~= RecordSetV::set_at(
                    pre.hash_to_report,
                    hash_id,
                ).insert(report_id));
                assert(self@.hash_to_name[hash_id] =~= RecordSetV::set_at(
                    pre.hash_to_name,
                    hash_id,
                ).insert(name_id));
                assert(self@ =~~= pre.add_one(report_id, osv[i as int]));
                assert(osv.skip(i as int).drop_first() =~= osv.skip(i as int + 1));
                assert(osv.skip(i as int)[0] == osv[i as int]);
                assert(self@.add_links(report_id, osv.skip(i as int + 1)) == orig.add_links(
                    report_id,
                    osv,
                ));
            }
            i += 1;
        }
        proof {
            assert(osv.skip(objects@.len() as int) =~= Seq::<ObjectHashV>::empty());
            assert(self@ == orig.add_links(report_id, osv));
        }
        self.reports.insert(report_id, info.duplicate());
        proof {
            assert(self@ =~~= orig.spec_insert(info@, osv));
        }
        true
    }

    /// Looks up a hash string: "not found" if the hash was never indexed;
    /// otherwise the metadata of every linked report and the resolved string
    /// of every linked object name, each exactly once, in no particular order.
    pub fn get_by_hash(&self, name: &str) -> (r: Option<(Vec<&Info>, Vec<&String>)>)
        requires
            self.wf(),
        ensures
            match r {
                None => !self@.hash_to_report.contains_key(hash_of(name@)),
                Some(pair) => {
                    let hid = hash_of(name@);
                    &&& self@.hash_to_report.contains_key(hid)
                    &&& info_views(pair.0@).to_set() == self@.report_infos(hid)
                    &&& info_views(pair.0@).no_duplicates()
                    &&& string_views(pair.1@).to_set() == self@.hash_names(hid)
                    &&& string_views(pair.1@).no_duplicates()
                },
            },
    {
        let hash_id = id_from_str(name);
        if !self.hash_to_report.contains_key(&hash_id) {
            return None;
        }
        proof {
            assert(self@.hash_to_name.contains_key(hash_id));
        }
        let rvec = self.hash_to_report.get(&hash_id).unwrap();
        let nvec = self.hash_to_name.get(&hash_id).unwrap();
        let mut infos: Vec<&Info> = Vec::new();
        let mut k: usize = 0;
        while k < rvec.len()
            invariant
                self.wf(),
                0 <= k <= rvec@.len(),
                self@.hash_to_report.contains_key(hash_id),
                rvec@.to_set() == self@.hash_to_report[hash_id],
                rvec@.no_duplicates(),
                infos@.len() == k,
                forall|j: int| 0 <= j < k ==> self@.reports.contains_key(#[trigger] rvec@[j]),
                info_views(infos@) == rvec@.take(k as int).map_values(
                    |rid: Id| self@.reports[rid],
                ),
            decreases rvec@.len() - k,
        {
            let rid = rvec[k];
            proof {
                assert(rvec@.contains(rid));
                assert(rvec@.to_set().contains(rid));
                assert(self@.reports.contains_key(rid));
                assert(self.reports@.contains_key(rid));
            }
            let one = self.reports.get(&rid).unwrap();
            let ghost prev = infos@;
            infos.push(one);
            proof {
                assert(one@ == self@.reports[rid]);
                assert(infos@ == prev.push(one));
                assert forall|j: int| 0 <= j < k + 1 implies info_views(infos@)[j] == rvec@.take(
                    k as int + 1,
                ).map_values(|rid2: Id| self@.reports[rid2])[j] by {
                    assert(rvec@.take(k as int + 1)[j] == rvec@[j]);
                    if j < k {
                        assert(infos@[j] == prev[j]);
                        assert(info_views(prev)[j] == rvec@.take(k as int).map_values(
                            |rid2: Id| self@.reports[rid2],
                        )[j]);
                        assert(rvec@.take(k as int)[j] == rvec@[j]);
                    } else {
                        assert(infos@[j] == one);
                    }
                }
                assert(info_views(infos@) =~= rvec@.take(k as int + 1).map_values(
                    |rid2: Id| self@.reports[rid2],
                ));
            }
            k += 1;
        }
        let mut names: Vec<&String> = Vec::new();
        let mut k2: usize = 0;
        while k2 < nvec.len()
            invariant
                self.wf(),
                0 <= k2 <= nvec@.len(),
                self@.hash_to_name.contains_key(hash_id),
                nvec@.to_set() == self@.hash_to_name[hash_id],
                nvec@.no_duplicates(),
                names@.len() == k2,
                forall|j: int| 0 <= j < k2 ==> self@.name_ids.contains_key(#[trigger] nvec@[j]),
                string_views(names@) == nvec@.take(k2 as int).map_values(
                    |nid: Id| self@.name_ids[nid],
                ),
            decreases nvec@.len() - k2,
        {
            let nid = nvec[k2];
            proof {
                assert(nvec@.contains(nid));
                assert(nvec@.to_set().contains(nid));
                assert(self@.name_ids.contains_key(nid));
                assert(self.name_ids@.contains_key(nid));
            }
            let one = self.name_ids.get(&nid).unwrap();
            let ghost prev = names@;
            names.push(one);
            proof {
                assert(one@ == self@.name_ids[nid]);
                assert(names@ == prev.push(one));
                assert forall|j: int| 0 <= j < k2 + 1 implies string_views(names@)[j] == nvec@.take(
                    k2 as int + 1,
                ).map_values(|nid2: Id| self@.name_ids[nid2])[j] by {
                    assert(nvec@.take(k2 as int + 1)[j] == nvec@[j]);
                    if j < k2 {
                        assert(names@[j] == prev[j]);
                        assert(string_views(prev)[j] == nvec@.take(k2 as int).map_values(
                            |nid2: Id| self@.name_ids[nid2],
                        )[j]);
                        assert(nvec@.take(k2 as int)[j] == nvec@[j]);
                    } else {
                        assert(names@[j] == one);
                    }
                }
                assert(string_views(names@) =~= nvec@.take(k2 as int + 1).map_values(
                    |nid2: Id| self@.name_ids[nid2],
                ));
            }
            k2 += 1;
        }
        proof {
            assert(rvec@.take(rvec@.len() as int) =~= rvec@);
            assert(nvec@.take(nvec@.len() as int) =~= nvec@);
            self.lemma_get_result(hash_id, infos@, rvec@, names@, nvec@);
        }
        Some((infos, names))
    }

    /// The vectors built from the link vectors carry exactly the linked
    /// infos and names, each once.
    proof fn lemma_get_result(
        &self,
        hid: Id,
        infos: Seq<&Info>,
        rids: Seq<Id>,
        names: Seq<&String>,
        nids: Seq<Id>,
    )
        requires
            self.wf(),
            self@.hash_to_report.contains_key(hid),
            self@.hash_to_name.contains_key(hid),
            rids.to_set() == self@.hash_to_report[hid],
            rids.no_duplicates(),
            forall|j: int| 0 <= j < rids.len() ==> self@.reports.contains_key(#[trigger] rids[j]),
            info_views(infos) == rids.map_values(|rid: Id| self@.reports[rid]),
            nids.to_set() == self@.hash_to_name[hid],
            nids.no_duplicates(),
            forall|j: int| 0 <= j < nids.len() ==> self@.name_ids.contains_key(#[trigger] nids[j]),
            string_views(names) == nids.map_values(|nid: Id| self@.name_ids[nid]),
        ensures
            info_views(infos).to_set() == self@.report_infos(hid),
            info_views(infos).no_duplicates(),
            string_views(names).to_set() == self@.hash_names(hid),
            string_views(names).no_duplicates(),
    {
        let s = self@;
        let iv = info_views(infos);
        assert forall|x: InfoV| iv.to_set().contains(x) implies s.report_infos(hid).contains(
            x,
        ) by {
            let j = choose|j: int| 0 <= j < iv.len() && iv[j] == x;
            assert(rids.to_set().contains(rids[j]));
        }
        assert forall|x: InfoV| s.report_infos(hid).contains(x) implies iv.to_set().contains(
            x,
        ) by {
            let rid = choose|rid: Id|
                #![all_triggers]
                RecordSetV::set_at(s.hash_to_report, hid).contains(rid) && s.reports.contains_key(
                    rid,
                ) && s.reports[rid] == x;
            let j = choose|j: int| 0 <= j < rids.len() && rids[j] == rid;
            assert(iv[j] == x);
            assert(iv.to_set().contains(iv[j]));
        }
        assert(iv.to_set() =~= s.report_infos(hid));
        assert forall|j1: int, j2: int| 0 <= j1 < j2 < iv.len() implies iv[j1] != iv[j2] by {
            // distinct identifiers intern distinct id strings
            assert(iv[j1] == s.reports[rids[j1]] && iv[j2] == s.reports[rids[j2]]);
            assert(s.reports.contains_key(rids[j1]) && s.reports.contains_key(rids[j2]));
            assert(rids[j1] != rids[j2]);
            assert(hash_of(s.reports[rids[j1]].id) == rids[j1]);
            assert(hash_of(s.reports[rids[j2]].id) == rids[j2]);
        }
        let nv = string_views(names);
        assert forall|x: Seq<char>| nv.to_set().contains(x) implies s.hash_names(hid).contains(
            x,
        ) by {
            let j = choose|j: int| 0 <= j < nv.len() && nv[j] == x;
            assert(nids.to_set().contains(nids[j]));
        }
        assert forall|x: Seq<char>| s.hash_names(hid).contains(x) implies nv.to_set().contains(
            x,
        ) by {
            let nid = choose|nid: Id|
                #![all_triggers]
                RecordSetV::set_at(s.hash_to_name, hid).contains(nid) && s.name_ids.contains_key(
                    nid,
                ) && s.name_ids[nid] == x;
            let j = choose|j: int| 0 <= j < nids.len() && nids[j] == nid;
            assert(nv[j] == x);
            assert(nv.to_set().contains(nv[j]));
        }
        assert(nv.to_set() =~= s.hash_names(hid));
        assert forall|j1: int, j2: int| 0 <= j1 < j2 < nv.len() implies nv[j1] != nv[j2] by {
            assert(nv[j1] == s.name_ids[nids[j1]] && nv[j2] == s.name_ids[nids[j2]]);
            assert(s.name_ids.contains_key(nids[j1]) && s.name_ids.contains_key(nids[j2]));
            assert(nids[j1] != nids[j2]);
            assert(hash_of(s.name_ids[nids[j1]]) == nids[j1]);
            assert(hash_of(s.name_ids[nids[j2]]) == nids[j2]);
        }
    }
}

} // verus!

verus! {

/// Indexing records never touches the stored report metadata.
proof fn lemma_add_links_reports(s: RecordSetV, rid: Id, os: Seq<ObjectHashV>)
    ensures
        s.add_links(rid, os).reports == s.reports,
    decreases os.len(),
{
    if os.len() > 0 {
        lemma_add_links_reports(s.add_one(rid, os[0]), rid, os.drop_first());
    }
}

/// Idempotent insert: once a report id is present, inserting it again —
/// with any metadata carrying the same id and any records — changes the
/// index in no way, so every later answer is as if only the first insert
/// had happened.
pub proof fn lemma_insert_idempotent(
    s: RecordSetV,
    info1: InfoV,
    os1: Seq<ObjectHashV>,
    info2: InfoV,
    os2: Seq<ObjectHashV>,
)
    requires
        info2.id == info1.id,
    ensures
        s.spec_insert(info1, os1).spec_insert(info2, os2) == s.spec_insert(info1, os1),
{
    let rid = hash_of(info1.id);
    let s1 = s.spec_insert(info1, os1);
    if !s.reports.contains_key(rid) {
        lemma_add_links_reports(s, rid, os1);
    }
    assert(s1.reports.contains_key(rid));
}

/// Which hashes the link map answers after indexing: the ones it answered
/// before, plus each record's hash.
proof fn lemma_add_links_hash_dom(s: RecordSetV, rid: Id, os: Seq<ObjectHashV>, h: Id)
    ensures
        s.add_links(rid, os).hash_to_report.contains_key(h) <==> (s.hash_to_report.contains_key(h)
            || exists|j: int| 0 <= j < os.len() && hash_of((#[trigger] os[j]).hash) == h),
    decreases os.len(),
{
    if os.len() > 0 {
        let s1 = s.add_one(rid, os[0]);
        lemma_add_links_hash_dom(s1, rid, os.drop_first(), h);
        let os1 = os.drop_first();
        if s.add_links(rid, os).hash_to_report.contains_key(h) {
            if !s.hash_to_report.contains_key(h) {
                if h == hash_of(os[0].hash) {
                    assert(hash_of(os[0].hash) == h);
                } else {
                    let j = choose|j: int|
                        0 <= j < os1.len() && hash_of((#[trigger] os1[j]).hash) == h;
                    assert(os1[j] == os[j + 1]);
                    assert(hash_of(os[j + 1].hash) == h);
                }
            }
        }
        if s.hash_to_report.contains_key(h) {
            assert(s1.hash_to_report.contains_key(h));
        }
        if exists|j: int| 0 <= j < os.len() && hash_of((#[trigger] os[j]).hash) == h {
            let j = choose|j: int| 0 <= j < os.len() && hash_of((#[trigger] os[j]).hash) == h;
            if j == 0 {
                assert(s1.hash_to_report.contains_key(h));
            } else {
                assert(os1[j - 1] == os[j]);
                assert(hash_of(os1[j - 1].hash) == h);
            }
        }
    }
}

/// Unknown hash: a hash that no inserted record carried is absent from the
/// link map, so a lookup for it answers "not found".
pub proof fn lemma_insert_unknown_hash(
    s: RecordSetV,
    info: InfoV,
    os: Seq<ObjectHashV>,
    h: Seq<char>,
)
    requires
        !s.hash_to_report.contains_key(hash_of(h)),
        forall|j: int| 0 <= j < os.len() ==> hash_of((#[trigger] os[j]).hash) != hash_of(h),
    ensures
        !s.spec_insert(info, os).hash_to_report.contains_key(hash_of(h)),
{
    let rid = hash_of(info.id);
    if !s.reports.contains_key(rid) {
        lemma_add_links_hash_dom(s, rid, os, hash_of(h));
    }
}

} // verus!

verus! {

/// Link sets only grow while records are indexed.
proof fn lemma_add_links_monotone(s: RecordSetV, rid: Id, os: Seq<ObjectHashV>, h: Id, r: Id)
    requires
        RecordSetV::set_at(s.hash_to_report, h).contains(r),
    ensures
        RecordSetV::set_at(s.add_links(rid, os).hash_to_report, h).contains(r),
    decreases os.len(),
{
    if os.len() > 0 {
        let s1 = s.add_one(rid, os[0]);
        assert(RecordSetV::set_at(s1.hash_to_report, h).contains(r));
        lemma_add_links_monotone(s1, rid, os.drop_first(), h, r);
    }
}

/// Indexing links the report to each record's hash.
proof fn lemma_add_links_adds(s: RecordSetV, rid: Id, os: Seq<ObjectHashV>, j: int)
    requires
        0 <= j < os.len(),
    ensures
        RecordSetV::set_at(s.add_links(rid, os).hash_to_report, hash_of(os[j].hash)).contains(rid),
    decreases os.len(),
{
    let s1 = s.add_one(rid, os[0]);
    if j == 0 {
        assert(RecordSetV::set_at(s1.hash_to_report, hash_of(os[0].hash)).contains(rid));
        lemma_add_links_monotone(s1, rid, os.drop_first(), hash_of(os[0].hash), rid);
    } else {
        assert(os.drop_first()[j - 1] == os[j]);
        lemma_add_links_adds(s1, rid, os.drop_first(), j - 1);
    }
}

/// A freshly inserted report is findable: after inserting a report whose
/// identifier was new, every one of its records links its hash to the
/// report, and the stored metadata is the inserted metadata.
pub proof fn lemma_insert_findable(s: RecordSetV, info: InfoV, os: Seq<ObjectHashV>, j: int)
    requires
        !s.reports.contains_key(hash_of(info.id)),
        0 <= j < os.len(),
    ensures
        ({
            let s2 = s.spec_insert(info, os);
            let rid = hash_of(info.id);
            &&& RecordSetV::set_at(s2.hash_to_report, hash_of(os[j].hash)).contains(rid)
            &&& s2.reports.contains_key(rid)
            &&& s2.reports[rid] == info
        }),
{
    let rid = hash_of(info.id);
    lemma_add_links_adds(s, rid, os, j);
}

} // verus!

verus! {

/// Inserting is strictly additive: no record of a new report can make an
/// existing report's metadata change or an existing link disappear.
pub proof fn lemma_insert_additive(
    s: RecordSetV,
    info: InfoV,
    os: Seq<ObjectHashV>,
    h: Id,
    r: Id,
)
    ensures
        ({
            let s2 = s.spec_insert(info, os);
            &&& RecordSetV::set_at(s.hash_to_report, h).contains(r) ==> RecordSetV::set_at(
                s2.hash_to_report,
                h,
            ).contains(r)
            &&& s.reports.contains_key(r) ==> s2.reports.contains_key(r) && s2.reports[r]
                == s.reports[r]
        }),
{
    let rid = hash_of(info.id);
    if !s.reports.contains_key(rid) {
        if RecordSetV::set_at(s.hash_to_report, h).contains(r) {
            lemma_add_links_monotone(s, rid, os, h, r);
        }
        lemma_add_links_reports(s, rid, os);
    }
}

} // verus!
