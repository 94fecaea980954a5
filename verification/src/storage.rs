use vstd::prelude::*;
use crate::hashing::{hash_of, id_from_str};
use crate::recordsets::{Id, RecordSet, RecordSetV};

verus! {

/// Report metadata. Identity is by `id`; `host` and `timestamp` are
/// optional annotations.
#[derive(Clone, Debug, PartialEq)]
pub struct Info {
    pub id: String,
    pub host: Option<String>,
    pub timestamp: Option<String>,
}

/// The mathematical value of an `Info`.
pub struct InfoV {
    pub id: Seq<char>,
    pub host: Option<Seq<char>>,
    pub timestamp: Option<Seq<char>>,
}

impl View for Info {
    type V = InfoV;

    open spec fn view(&self) -> InfoV {
        InfoV {
            id: self.id@,
            host: match self.host {
                Some(ref h) => Some(h@),
                None => None,
            },
            timestamp: match self.timestamp {
                Some(ref t) => Some(t@),
                None => None,
            },
        }
    }
}

impl Info {
    pub fn new(id: &str) -> (r: Info)
        ensures
            r@.id == id@,
            r@.host is None,
            r@.timestamp is None,
    {
        Info { id: id.to_owned(), host: None, timestamp: None }
    }

    pub fn id(&self) -> (r: &String)
        ensures
            r@ == self@.id,
    {
        &self.id
    }

    /// A copy whose value is known to equal the original's.
    pub fn duplicate(&self) -> (r: Info)
        ensures
            r@ == self@,
    {
        Info {
            id: self.id.clone(),
            host: match &self.host {
                Some(h) => Some(h.clone()),
                None => None,
            },
            timestamp: match &self.timestamp {
                Some(t) => Some(t.clone()),
                None => None,
            },
        }
    }
}

/// One (object-name, content-hash) association within a report. Both fields
/// are opaque strings supplied by the caller.
#[derive(Clone, Debug, PartialEq)]
pub struct ObjectHash {
    pub name: String,
    pub hash: String,
}

/// The mathematical value of an `ObjectHash`.
pub struct ObjectHashV {
    pub name: Seq<char>,
    pub hash: Seq<char>,
}

impl View for ObjectHash {
    type V = ObjectHashV;

    open spec fn view(&self) -> ObjectHashV {
        ObjectHashV { name: self.name@, hash: self.hash@ }
    }
}

impl ObjectHash {
    /// A copy whose value is known to equal the original's.
    pub fn duplicate(&self) -> (r: ObjectHash)
        ensures
            r@ == self@,
    {
        ObjectHash { name: self.name.clone(), hash: self.hash.clone() }
    }
}

/// The values of a sequence of records.
pub open spec fn views_of(s: Seq<ObjectHash>) -> Seq<ObjectHashV> {
    s.map_values(|o: ObjectHash| o@)
}

} // verus!

verus! {

broadcast use vstd::std_specs::hash::group_hash_axioms, vstd::seq_lib::lemma_seq_contains_after_push;

/// A report submission: metadata plus its records.
#[derive(Clone, Debug, PartialEq)]
pub struct InsertRequest {
    pub info: Info,
    pub records: Vec<ObjectHash>,
}

impl InsertRequest {
    /// A copy whose value is known to equal the original's.
    pub fn duplicate(&self) -> (r: InsertRequest)
        ensures
            r.info@ == self.info@,
            views_of(r.records@) == views_of(self.records@),
    {
        let mut records: Vec<ObjectHash> = Vec::new();
        let mut i: usize = 0;
        while i < self.records.len()
            invariant
                0 <= i <= self.records@.len(),
                records@.len() == i,
                forall|j: int| 0 <= j < i ==> (#[trigger] records@[j])@ == self.records@[j]@,
            decreases self.records@.len() - i,
        {
            records.push(self.records[i].duplicate());
            i += 1;
        }
        proof {
            assert(views_of(records@) =~= views_of(self.records@));
        }
        InsertRequest { info: self.info.duplicate(), records }
    }

    /// The exact text persisted for this request.
    pub fn to_json(&self) -> (r: String)
        ensures
            r@ == crate::codec::json_request(self.info@, views_of(self.records@)),
    {
        let v = crate::codec::enc_request(&self.info, &self.records);
        crate::codec::chars_string(&v)
    }
}

/// The insert result carries no detail: it only signals success.
pub struct InsertResonse {}

/// A lookup request: the hashes to query, in any order, duplicates allowed.
pub struct LookupRequest {
    pub hashes: Vec<String>,
}

/// A lookup response: the metadata of every matched report.
pub struct LookupResponse {
    pub records: Vec<Info>,
}

impl LookupResponse {
    /// The exact response text.
    pub fn to_json(&self) -> (r: String)
        ensures
            r@ == crate::codec::json_response(crate::codec::info_values(self.records@)),
    {
        let v = crate::codec::enc_response(&self.records);
        crate::codec::chars_string(&v)
    }
}

/// The storage interface the request handlers work against. `inv` is the
/// implementation's own well-formedness, preserved by every call.
pub trait Storage: Send + Sync {
    spec fn inv(&self) -> bool;

    fn insert(&mut self, data: InsertRequest) -> (r: Option<InsertResonse>)
        requires
            old(self).inv(),
        ensures
            final(self).inv(),
    ;

    fn lookup(&self, data: LookupRequest) -> (r: Option<LookupResponse>)
        requires
            self.inv(),
    ;
}

/// A storage that holds nothing and answers nothing.
pub struct EmptyStorage;

impl Storage for EmptyStorage {
    open spec fn inv(&self) -> bool {
        true
    }

    fn insert(&mut self, _data: InsertRequest) -> (r: Option<InsertResonse>)
        ensures
            r is None,
    {
        None
    }

    fn lookup(&self, _data: LookupRequest) -> (r: Option<LookupResponse>)
        ensures
            r is None,
    {
        None
    }
}

/// The values of a sequence of hash strings.
pub open spec fn string_values(s: Seq<String>) -> Seq<Seq<char>> {
    s.map_values(|t: String| t@)
}

/// The report identifiers of a sequence of info values, in order.
pub open spec fn rid_seq(ivs: Seq<InfoV>) -> Seq<Id> {
    ivs.map_values(|iv: InfoV| hash_of(iv.id))
}

/// The report identifiers of a sequence of info values.
pub open spec fn rids_of(ivs: Seq<InfoV>) -> Set<Id> {
    rid_seq(ivs).to_set()
}

/// The in-memory index coupled with a working directory: the index answers
/// lookups; the caller persists one file per newly inserted report under
/// the directory and replays the directory at startup.
pub struct SimpleStorage {
    records: RecordSet,
    workdir: String,
}

impl SimpleStorage {
    pub closed spec fn wf(&self) -> bool {
        self.records.wf()
    }

    /// The abstract index held in memory.
    pub closed spec fn index(&self) -> RecordSetV {
        self.records@
    }

    pub closed spec fn workdir_name(&self) -> Seq<char> {
        self.workdir@
    }

    /// The index of a well-formed storage is well-formed.
    pub proof fn lemma_wf_index(&self)
        requires
            self.wf(),
        ensures
            self.index().wf(),
    {
        self.records.lemma_wf_view();
    }

    pub fn new(workdir: &str) -> (r: SimpleStorage)
        ensures
            r.wf(),
            r.index() == RecordSetV::empty(),
            r.workdir_name() == workdir@,
    {
        SimpleStorage { records: RecordSet::new(), workdir: workdir.to_owned() }
    }

    /// The working directory this storage was created over.
    pub fn workdir(&self) -> (r: &String)
        ensures
            r@ == self.workdir_name(),
    {
        &self.workdir
    }

    /// The file name a request persists under: the decimal identifier
    /// derived from the report id.
    pub fn file_name(data: &InsertRequest) -> (r: String)
        ensures
            r@ == crate::codec::dec_digits(hash_of(data.info@.id) as int),
    {
        crate::codec::u64_dec_string(id_from_str(data.info.id.as_str()))
    }

    /// Inserts the request into the in-memory index only. Returns true iff
    /// the report id was new; the caller persists the request exactly then.
    pub fn save_mem(&mut self, data: &InsertRequest) -> (changed: bool)
        requires
            old(self).wf(),
        ensures
            final(self).wf(),
            final(self).workdir_name() == old(self).workdir_name(),
            changed == !old(self).index().reports.contains_key(hash_of(data.info@.id)),
            final(self).index() == old(self).index().spec_insert(
                data.info@,
                views_of(data.records@),
            ),
    {
        self.records.insert(&data.info, data.records.as_slice())
    }

    /// Replays one persisted file's contents into the in-memory index.
    /// Text that is not a persisted request is skipped and changes nothing;
    /// any other file is unaffected either way.
    pub fn recover_entry(&mut self, contents: &str) -> (ok: bool)
        requires
            old(self).wf(),
        ensures
            final(self).wf(),
            final(self).workdir_name() == old(self).workdir_name(),
            match crate::codec::p_request(contents@) {
                Some(pr) => ok && final(self).index() == old(self).index().spec_insert(pr.0, pr.1),
                None => !ok && final(self).index() == old(self).index(),
            },
    {
        match crate::codec::parse_request(contents) {
            Some(p) => {
                let req = InsertRequest { info: p.0, records: p.1 };
                self.save_mem(&req);
                true
            },
            None => false,
        }
    }

    /// The infos of every report linked to any of the requested hashes.
    pub open spec fn lookup_infos(s: RecordSetV, hashes: Seq<Seq<char>>) -> Set<InfoV> {
        Set::new(
            |iv: InfoV|
                exists|j: int|
                    0 <= j < hashes.len() && s.report_infos(hash_of(#[trigger] hashes[j])).contains(
                        iv,
                    ),
        )
    }

    /// Looks up every requested hash and merges the matched reports'
    /// metadata, deduplicated by report identity; "not found" exactly when
    /// nothing matched.
    pub fn lookup_merge(&self, data: &LookupRequest) -> (r: Option<LookupResponse>)
        requires
            self.wf(),
        ensures
            match r {
                None => Self::lookup_infos(self.index(), string_values(data.hashes@)).is_empty(),
                Some(resp) => {
                    &&& crate::codec::info_values(resp.records@).to_set() == Self::lookup_infos(
                        self.index(),
                        string_values(data.hashes@),
                    )
                    &&& crate::codec::info_values(resp.records@).no_duplicates()
                    &&& resp.records@.len() > 0
                },
            },
    {
        proof {
            self.lemma_wf_index();
        }
        let ghost hviews = string_values(data.hashes@);
        let mut found: Vec<Info> = Vec::new();
        let mut seen: std::collections::HashSet<Id> = std::collections::HashSet::new();
        let mut j: usize = 0;
        proof {
            assert(crate::codec::info_values(found@).to_set() =~= Self::lookup_infos(
                self.index(),
                hviews.take(0),
            ));
            assert(rids_of(crate::codec::info_values(found@)) =~= seen@);
        }
        while j < data.hashes.len()
            invariant
                self.wf(),
                self.index().wf(),
                0 <= j <= data.hashes@.len(),
                hviews == string_values(data.hashes@),
                hviews.len() == data.hashes@.len(),
                crate::codec::info_values(found@).to_set() == Self::lookup_infos(
                    self.index(),
                    hviews.take(j as int),
                ),
                crate::codec::info_values(found@).no_duplicates(),
                seen@ == rids_of(crate::codec::info_values(found@)),
                forall|k: int|
                    0 <= k < found@.len() ==> {
                        let iv = (#[trigger] found@[k])@;
                        self.index().reports.contains_key(hash_of(iv.id))
                            && self.index().reports[hash_of(iv.id)] == iv
                    },
            decreases data.hashes@.len() - j,
        {
            let ghost pre_found = found@;
            let hash = &data.hashes[j];
            proof {
                assert(hviews[j as int] == data.hashes@[j as int]@);
            }
            let ghost hid = hash_of(hviews[j as int]);
            match self.records.get_by_hash(hash.as_str()) {
                Some(pair) => {
                    let infos = pair.0;
                    let mut k: usize = 0;
                    proof {
                        assert(crate::codec::info_values(found@).to_set().union(
                            crate::recordsets::info_views(infos@.take(0)).to_set(),
                        ) =~= crate::codec::info_values(found@).to_set());
                    }
                    while k < infos.len()
                        invariant
                            self.wf(),
                            self.index().wf(),
                            0 <= k <= infos@.len(),
                            crate::recordsets::info_views(infos@).to_set() == self.index()
                                .report_infos(hid),
                            crate::recordsets::info_views(infos@).no_duplicates(),
                            crate::codec::info_values(found@).to_set() == crate::codec::info_values(
                                pre_found,
                            ).to_set().union(
                                crate::recordsets::info_views(infos@.take(k as int)).to_set(),
                            ),
                            crate::codec::info_values(found@).no_duplicates(),
                            seen@ == rids_of(crate::codec::info_values(found@)),
                            forall|m: int|
                                0 <= m < found@.len() ==> {
                                    let iv = (#[trigger] found@[m])@;
                                    self.index().reports.contains_key(hash_of(iv.id))
                                        && self.index().reports[hash_of(iv.id)] == iv
                                },
                        decreases infos@.len() - k,
                    {
                        let one = infos[k];
                        let ghost iv = one@;
                        proof {
                            assert(crate::recordsets::info_views(infos@)[k as int] == iv);
                            assert(crate::recordsets::info_views(infos@).to_set().contains(iv));
                            assert(self.index().report_infos(hid).contains(iv));
                            let rid0 = choose|rid: Id|
                                #![all_triggers]
                                RecordSetV::set_at(self.index().hash_to_report, hid).contains(rid)
                                    && self.index().reports.contains_key(rid) && self.index()
                                    .reports[rid] == iv;
                            assert(hash_of(iv.id) == rid0);
                        }
                        let rid = id_from_str(one.id.as_str());
                        let ghost fnd = found@;
                        let ghost fvs = crate::codec::info_values(fnd);
                        proof {
                            assert(crate::recordsets::info_views(infos@.take(k as int + 1))
                                =~= crate::recordsets::info_views(infos@.take(k as int)).push(iv));
                        }
                        if !seen.contains(&rid) {
                            proof {
                                // the incoming value is new: its identifier was never seen
                                assert forall|m: int| 0 <= m < fnd.len() implies (
                                #[trigger] fnd[m])@ != iv by {
                                    if fnd[m]@ == iv {
                                        assert(rid_seq(fvs)[m] == hash_of(iv.id));
                                        assert(rid_seq(fvs).contains(hash_of(iv.id)));
                                        assert(seen@.contains(hash_of(iv.id)));
                                    }
                                }
                                assert(!fvs.contains(iv));
                            }
                            seen.insert(rid);
                            found.push(one.duplicate());
                            proof {
                                let nv = crate::codec::info_values(found@);
                                assert(nv =~= fvs.push(iv));
                                assert forall|a: int, b: int|
                                    0 <= a < b < nv.len() implies nv[a] != nv[b] by {
                                    if b < nv.len() - 1 {
                                        assert(nv[a] == fvs[a] && nv[b] == fvs[b]);
                                    } else {
                                        assert(nv[b] == iv);
                                        assert(nv[a] == fvs[a] && fvs[a] == fnd[a]@);
                                    }
                                }
                                assert(nv.no_duplicates());
                                assert(nv.to_set() =~= fvs.to_set().insert(iv));
                                assert(crate::recordsets::info_views(
                                    infos@.take(k as int + 1),
                                ).to_set() =~= crate::recordsets::info_views(
                                    infos@.take(k as int),
                                ).to_set().insert(iv));
                                assert(fvs.to_set() == crate::codec::info_values(
                                    pre_found,
                                ).to_set().union(
                                    crate::recordsets::info_views(infos@.take(k as int)).to_set(),
                                ));
                                assert(nv.to_set() =~= crate::codec::info_values(
                                    pre_found,
                                ).to_set().union(
                                    crate::recordsets::info_views(
                                        infos@.take(k as int + 1),
                                    ).to_set(),
                                ));
                                assert forall|x: Id| seen@.contains(x) implies rids_of(
                                    nv,
                                ).contains(x) by {
                                    if x == hash_of(iv.id) {
                                        assert(rid_seq(nv)[nv.len() - 1] == x);
                                        assert(rid_seq(nv).contains(x));
                                    } else {
                                        let m = choose|m: int|
                                            0 <= m < fvs.len() && #[trigger] rid_seq(fvs)[m] == x;
                                        assert(rid_seq(nv)[m] == x);
                                        assert(rid_seq(nv).contains(x));
                                    }
                                }
                                assert forall|x: Id| rids_of(nv).contains(x) implies seen@.contains(
                                    x,
                                ) by {
                                    let m = choose|m: int|
                                        0 <= m < nv.len() && #[trigger] rid_seq(nv)[m] == x;
                                    if m < nv.len() - 1 {
                                        assert(rid_seq(fvs)[m] == x);
                                        assert(rid_seq(fvs).contains(x));
                                        assert(rids_of(fvs).contains(x));
                                    } else {
                                        assert(x == hash_of(iv.id));
                                    }
                                }
                                assert(seen@ =~= rids_of(nv));
                            }
                        } else {
                            proof {
                                // already collected: the identifier pins the value
                                assert(seen@.contains(hash_of(iv.id)));
                                let m = choose|m: int|
                                    0 <= m < fvs.len() && #[trigger] rid_seq(fvs)[m] == hash_of(
                                        iv.id,
                                    );
                                assert(fvs[m] == fnd[m]@);
                                assert(self.index().reports.contains_key(hash_of(fvs[m].id))
                                    && self.index().reports[hash_of(fvs[m].id)] == fvs[m]);
                                assert(hash_of(fvs[m].id) == hash_of(iv.id));
                                assert(self.index().reports[hash_of(iv.id)] == iv);
                                assert(fvs[m] == iv);
                                assert(fvs.contains(iv));
                                assert(fvs.to_set().contains(iv));
                                assert(crate::codec::info_values(found@).to_set()
                                    =~= crate::codec::info_values(pre_found).to_set().union(
                                    crate::recordsets::info_views(
                                        infos@.take(k as int + 1),
                                    ).to_set(),
                                ));
                            }
                        }
                        k += 1;
                    }
                    proof {
                        assert(infos@.take(infos@.len() as int) =~= infos@);
                        assert(crate::recordsets::info_views(infos@).to_set() == self.index()
                            .report_infos(hid));
                        assert(crate::codec::info_values(found@).to_set()
                            =~= crate::codec::info_values(pre_found).to_set().union(
                            self.index().report_infos(hid),
                        ));
                        self.lemma_lookup_step(hviews, j as int, found@, pre_found);
                    }
                },
                None => {
                    proof {
                        assert(self.index().report_infos(hid) =~= Set::<InfoV>::empty());
                        assert(crate::codec::info_values(found@).to_set()
                            =~= crate::codec::info_values(pre_found).to_set().union(
                            self.index().report_infos(hid),
                        ));
                        self.lemma_lookup_step(hviews, j as int, found@, pre_found);
                    }
                },
            }
            j += 1;
        }
        proof {
            assert(hviews.take(hviews.len() as int) =~= hviews);
        }
        if found.len() == 0 {
            proof {
                assert(crate::codec::info_values(found@).to_set() =~= Set::<InfoV>::empty());
                assert(Self::lookup_infos(self.index(), hviews).is_empty());
            }
            None
        } else {
            Some(LookupResponse { records: found })
        }
    }

    /// Collecting one more hash's reports extends the merged set by exactly
    /// that hash's reports.
    proof fn lemma_lookup_step(
        &self,
        hviews: Seq<Seq<char>>,
        j: int,
        found: Seq<Info>,
        pre_found: Seq<Info>,
    )
        requires
            0 <= j < hviews.len(),
            crate::codec::info_values(found).to_set() == crate::codec::info_values(
                pre_found,
            ).to_set().union(self.index().report_infos(hash_of(hviews[j]))),
            crate::codec::info_values(pre_found).to_set() == Self::lookup_infos(
                self.index(),
                hviews.take(j),
            ),
        ensures
            crate::codec::info_values(found).to_set() == Self::lookup_infos(
                self.index(),
                hviews.take(j + 1),
            ),
    {
        let s = self.index();
        let lhs = crate::codec::info_values(found).to_set();
        let rhs = Self::lookup_infos(s, hviews.take(j + 1));
        assert forall|iv: InfoV| lhs.contains(iv) implies rhs.contains(iv) by {
            if crate::codec::info_values(pre_found).to_set().contains(iv) {
                let j0 = choose|j0: int|
                    0 <= j0 < hviews.take(j).len() && s.report_infos(
                        hash_of(#[trigger] hviews.take(j)[j0]),
                    ).contains(iv);
                assert(hviews.take(j + 1)[j0] == hviews[j0]);
                assert(s.report_infos(hash_of(hviews.take(j + 1)[j0])).contains(iv));
            } else {
                assert(hviews.take(j + 1)[j] == hviews[j]);
                assert(s.report_infos(hash_of(hviews.take(j + 1)[j])).contains(iv));
            }
        }
        assert forall|iv: InfoV| rhs.contains(iv) implies lhs.contains(iv) by {
            let j0 = choose|j0: int|
                0 <= j0 < hviews.take(j + 1).len() && s.report_infos(
                    hash_of(#[trigger] hviews.take(j + 1)[j0]),
                ).contains(iv);
            assert(hviews.take(j + 1)[j0] == hviews[j0]);
            if j0 < j {
                assert(hviews.take(j)[j0] == hviews[j0]);
                assert(Self::lookup_infos(s, hviews.take(j)).contains(iv));
            } else {
                assert(s.report_infos(hash_of(hviews[j])).contains(iv));
            }
        }
        assert(lhs =~= rhs);
    }
}

impl Storage for SimpleStorage {
    open spec fn inv(&self) -> bool {
        self.wf()
    }

    /// Inserts into the in-memory index and always reports success — a
    /// duplicate report id is not an error. Persisting the file is the
    /// surrounding layer's step, taken exactly when the report was new.
    fn insert(&mut self, data: InsertRequest) -> (r: Option<InsertResonse>)
        ensures
            r is Some,
            final(self).index() == old(self).index().spec_insert(
                data.info@,
                views_of(data.records@),
            ),
            final(self).workdir_name() == old(self).workdir_name(),
    {
        self.save_mem(&data);
        Some(InsertResonse {  })
    }

    /// Answers exactly as `lookup_merge`: the merged, report-deduplicated
    /// metadata of every matched report, or "not found" when nothing
    /// matched.
    fn lookup(&self, data: LookupRequest) -> (r: Option<LookupResponse>)
        ensures
            match r {
                None => Self::lookup_infos(self.index(), string_values(data.hashes@)).is_empty(),
                Some(resp) => {
                    &&& crate::codec::info_values(resp.records@).to_set() == Self::lookup_infos(
                        self.index(),
                        string_values(data.hashes@),
                    )
                    &&& crate::codec::info_values(resp.records@).no_duplicates()
                    &&& resp.records@.len() > 0
                },
            },
    {
        self.lookup_merge(&data)
    }
}

} // verus!

verus! {

/// Fan-in merge: when two reports are both linked to one hash, a lookup for
/// that hash carries both reports' metadata.
pub proof fn lemma_fan_in(s: RecordSetV, h: Seq<char>, ra: Id, rb: Id)
    requires
        s.wf(),
        RecordSetV::set_at(s.hash_to_report, hash_of(h)).contains(ra),
        RecordSetV::set_at(s.hash_to_report, hash_of(h)).contains(rb),
    ensures
        SimpleStorage::lookup_infos(s, seq![h]).contains(s.reports[ra]),
        SimpleStorage::lookup_infos(s, seq![h]).contains(s.reports[rb]),
{
    let hid = hash_of(h);
    assert(s.hash_to_report.contains_key(hid));
    assert(s.reports.contains_key(ra) && s.reports.contains_key(rb));
    assert(s.report_infos(hid).contains(s.reports[ra]));
    assert(s.report_infos(hid).contains(s.reports[rb]));
    assert(seq![h][0] == h);
    assert(SimpleStorage::lookup_infos(s, seq![h]).contains(s.reports[ra]));
    assert(SimpleStorage::lookup_infos(s, seq![h]).contains(s.reports[rb]));
}

/// Recovery fidelity, file by file: the text persisted for a report, read
/// back and replayed, performs exactly the insert of that report on any
/// index state.
pub proof fn lemma_recover_fidelity(s: RecordSetV, iv: InfoV, rs: Seq<ObjectHashV>)
    ensures
        crate::codec::p_request(crate::codec::json_request(iv, rs)) == Some((iv, rs)),
        ({
            let parsed = crate::codec::p_request(crate::codec::json_request(iv, rs)).unwrap();
            s.spec_insert(parsed.0, parsed.1) == s.spec_insert(iv, rs)
        }),
{
    crate::codec::lemma_request_roundtrip(iv, rs);
}

/// A lookup's answer depends only on which hash strings are requested:
/// the order of the request and any duplicates in it are irrelevant.
pub proof fn lemma_lookup_same_hashes(s: RecordSetV, hs1: Seq<Seq<char>>, hs2: Seq<Seq<char>>)
    requires
        hs1.to_set() == hs2.to_set(),
    ensures
        SimpleStorage::lookup_infos(s, hs1) == SimpleStorage::lookup_infos(s, hs2),
{
    assert forall|iv: InfoV| SimpleStorage::lookup_infos(s, hs1).contains(iv)
        implies SimpleStorage::lookup_infos(s, hs2).contains(iv) by {
        let j = choose|j: int|
            0 <= j < hs1.len() && s.report_infos(hash_of(#[trigger] hs1[j])).contains(iv);
        assert(hs1.to_set().contains(hs1[j]));
        assert(hs2.to_set().contains(hs1[j]));
        let j2 = choose|j2: int| 0 <= j2 < hs2.len() && hs2[j2] == hs1[j];
        assert(s.report_infos(hash_of(hs2[j2])).contains(iv));
    }
    assert forall|iv: InfoV| SimpleStorage::lookup_infos(s, hs2).contains(iv)
        implies SimpleStorage::lookup_infos(s, hs1).contains(iv) by {
        let j = choose|j: int|
            0 <= j < hs2.len() && s.report_infos(hash_of(#[trigger] hs2[j])).contains(iv);
        assert(hs2.to_set().contains(hs2[j]));
        assert(hs1.to_set().contains(hs2[j]));
        let j2 = choose|j2: int| 0 <= j2 < hs1.len() && hs1[j2] == hs2[j];
        assert(s.report_infos(hash_of(hs1[j2])).contains(iv));
    }
    assert(SimpleStorage::lookup_infos(s, hs1) =~= SimpleStorage::lookup_infos(s, hs2));
}

/// Fan-in merge over two hashes: a lookup for both hashes carries the
/// metadata of a report matching either one; the lookup result itself holds
/// each report once, however many requested hashes it matches.
pub proof fn lemma_fan_in_two(s: RecordSetV, h1: Seq<char>, h2: Seq<char>, ra: Id, rb: Id)
    requires
        s.wf(),
        RecordSetV::set_at(s.hash_to_report, hash_of(h1)).contains(ra),
        RecordSetV::set_at(s.hash_to_report, hash_of(h2)).contains(rb),
    ensures
        SimpleStorage::lookup_infos(s, seq![h1, h2]).contains(s.reports[ra]),
        SimpleStorage::lookup_infos(s, seq![h1, h2]).contains(s.reports[rb]),
{
    assert(s.hash_to_report.contains_key(hash_of(h1)));
    assert(s.hash_to_report.contains_key(hash_of(h2)));
    assert(s.reports.contains_key(ra) && s.reports.contains_key(rb));
    assert(s.report_infos(hash_of(h1)).contains(s.reports[ra]));
    assert(s.report_infos(hash_of(h2)).contains(s.reports[rb]));
    assert(seq![h1, h2][0] == h1 && seq![h1, h2][1] == h2);
    assert(SimpleStorage::lookup_infos(s, seq![h1, h2]).contains(s.reports[ra]));
    assert(SimpleStorage::lookup_infos(s, seq![h1, h2]).contains(s.reports[rb]));
}

} // verus!
