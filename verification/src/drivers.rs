//! A verified catalogue of vector I/O drivers.
//!
//! The front end enumerates the drivers its I/O backend offers and hands them
//! over as plain records; the catalogue then answers, with exact contracts,
//! which driver serves a file extension and which drivers can read or write.

use vstd::prelude::*;

verus! {

/// One driver: its short name, the file extensions it serves, and its
/// capabilities.
pub struct DriverRecord {
    pub name: String,
    pub extensions: Vec<String>,
    pub can_read: bool,
    pub can_write: bool,
}

/// The view of a driver record: name, extensions, capabilities.
pub open spec fn drec_view(r: DriverRecord) -> (Seq<char>, Seq<Seq<char>>, bool, bool) {
    (r.name@, Seq::new(r.extensions@.len(), |i: int| r.extensions@[i]@), r.can_read, r.can_write)
}

/// The views of a record vector.
pub open spec fn drec_views(rs: Seq<DriverRecord>) -> Seq<(Seq<char>, Seq<Seq<char>>, bool, bool)> {
    Seq::new(rs.len(), |i: int| drec_view(rs[i]))
}

impl Clone for DriverRecord {
    fn clone(&self) -> (r: DriverRecord)
        ensures
            drec_view(r) == drec_view(*self),
    {
        let mut extensions: Vec<String> = Vec::new();
        let mut i: usize = 0;
        while i < self.extensions.len()
            invariant
                0 <= i <= self.extensions@.len(),
                extensions@.len() == i,
                forall|k: int| 0 <= k < i ==> (#[trigger] extensions@[k])@ == self.extensions@[k]@,
            decreases self.extensions@.len() - i,
        {
            extensions.push(self.extensions[i].clone());
            i = i + 1;
        }
        let r = DriverRecord {
            name: self.name.clone(),
            extensions,
            can_read: self.can_read,
            can_write: self.can_write,
        };
        proof {
            assert(drec_view(r).1 =~= drec_view(*self).1);
            assert(drec_view(r) == drec_view(*self));
        }
        r
    }
}

/// A record serves the extension `ext`.
pub open spec fn record_serves(r: DriverRecord, ext: Seq<char>) -> bool {
    exists|k: int| 0 <= k < r.extensions@.len() && (#[trigger] r.extensions@[k])@ == ext
}

/// The index of the first record serving `ext`, or `-1`.
pub open spec fn first_serving(rs: Seq<DriverRecord>, ext: Seq<char>) -> int
    decreases rs.len(),
{
    if rs.len() == 0 {
        -1
    } else if record_serves(rs[0], ext) {
        0
    } else {
        let rest = first_serving(rs.drop_first(), ext);
        if rest == -1 {
            -1
        } else {
            rest + 1
        }
    }
}

/// The records of `rs` whose capabilities pass `keep`, in order.
pub open spec fn filtered_records(
    rs: Seq<DriverRecord>,
    keep: spec_fn(bool, bool) -> bool,
) -> Seq<DriverRecord>
    decreases rs.len(),
{
    if rs.len() == 0 {
        Seq::empty()
    } else {
        filtered_records(rs.drop_last(), keep) + (if keep(rs.last().can_read, rs.last().can_write) {
            seq![rs.last()]
        } else {
            Seq::empty()
        })
    }
}

/// The driver catalogue: a list of driver records in a fixed order.
pub struct GdalDrivers {
    pub records: Vec<DriverRecord>,
}

impl GdalDrivers {
    pub fn new(records: Vec<DriverRecord>) -> (r: GdalDrivers)
        ensures
            r.records == records,
    {
        GdalDrivers { records }
    }

    /// The first driver in the catalogue that serves the given file
    /// extension, or `None` when no driver lists it.
    pub fn infer_driver_name(&self, extension: &String) -> (r: Option<DriverRecord>)
        ensures
            match r {
                Some(rec) => {
                    &&& first_serving(self.records@, extension@) >= 0
                    &&& drec_view(rec) == drec_view(
                        self.records@[first_serving(self.records@, extension@)],
                    )
                },
                None => first_serving(self.records@, extension@) == -1,
            },
    {
        let mut i: usize = 0;
        while i < self.records.len()
            invariant
                0 <= i <= self.records@.len(),
                forall|k: int| 0 <= k < i ==> !record_serves(#[trigger] self.records@[k], extension@),
            decreases self.records@.len() - i,
        {
            let rec = &self.records[i];
            let mut k: usize = 0;
            let mut serves: bool = false;
            while k < rec.extensions.len()
                invariant
                    0 <= k <= rec.extensions@.len(),
                    serves <==> (exists|m: int|
                        0 <= m < k && (#[trigger] rec.extensions@[m])@ == extension@),
                decreases rec.extensions@.len() - k,
            {
                if rec.extensions[k].eq(extension) {
                    serves = true;
                }
                k = k + 1;
            }
            if serves {
                proof {
                    lemma_first_serving_here(self.records@, extension@, i as int);
                }
                return Some(rec.clone());
            }
            i = i + 1;
        }
        proof {
            lemma_first_serving_none(self.records@, extension@);
        }
        None
    }

    /// The drivers that can both read and write.
    pub fn read_write(&self) -> (r: Vec<DriverRecord>)
        ensures
            drec_views(r@) == drec_views(
                filtered_records(self.records@, |cr: bool, cw: bool| cr && cw),
            ),
    {
        self.filtered(true, true)
    }

    /// The drivers that can read.
    pub fn read(&self) -> (r: Vec<DriverRecord>)
        ensures
            drec_views(r@) == drec_views(
                filtered_records(self.records@, |cr: bool, cw: bool| cr),
            ),
    {
        self.filtered(true, false)
    }

    /// The drivers that can write.
    pub fn write(&self) -> (r: Vec<DriverRecord>)
        ensures
            drec_views(r@) == drec_views(
                filtered_records(self.records@, |cr: bool, cw: bool| cw),
            ),
    {
        self.filtered(false, true)
    }

    /// The drivers whose capabilities include reading when `need_read` and
    /// writing when `need_write`.
    fn filtered(&self, need_read: bool, need_write: bool) -> (r: Vec<DriverRecord>)
        ensures
            need_read && need_write ==> drec_views(r@) == drec_views(
                filtered_records(self.records@, |cr: bool, cw: bool| cr && cw),
            ),
            need_read && !need_write ==> drec_views(r@) == drec_views(
                filtered_records(self.records@, |cr: bool, cw: bool| cr),
            ),
            !need_read && need_write ==> drec_views(r@) == drec_views(
                filtered_records(self.records@, |cr: bool, cw: bool| cw),
            ),
    {
        let ghost keep = (|cr: bool, cw: bool| (!need_read || cr) && (!need_write || cw));
        let mut out: Vec<DriverRecord> = Vec::new();
        let n: usize = self.records.len();
        let mut i: usize = 0;
        while i < n
            invariant
                n == self.records@.len(),
                0 <= i <= n,
                forall|cr: bool, cw: bool| #[trigger]
                    keep(cr, cw) == ((!need_read || cr) && (!need_write || cw)),
                drec_views(out@) == drec_views(filtered_records(self.records@.take(i as int), keep)),
            decreases n - i,
        {
            let ghost prefix = self.records@.take(i as int);
            proof {
                assert(self.records@.take(i + 1).drop_last() =~= prefix);
                assert(self.records@.take(i + 1).last() == self.records@[i as int]);
            }
            let rec = &self.records[i];
            let ghost before = out@;
            if (!need_read || rec.can_read) && (!need_write || rec.can_write) {
                out.push(rec.clone());
            }
            proof {
                let model = filtered_records(self.records@.take(i + 1), keep);
                assert(keep(rec.can_read, rec.can_write) == ((!need_read || rec.can_read) && (
                !need_write || rec.can_write)));
                if keep(rec.can_read, rec.can_write) {
                    assert(model == filtered_records(prefix, keep) + seq![self.records@[i as int]]);
                    assert(drec_views(before).len() == before.len());
                    assert(drec_views(model).len() == model.len());
                    assert(drec_views(out@).len() == out@.len());
                    assert(out@ == before.push(out@[before.len() as int]));
                    assert forall|p: int| 0 <= p < out@.len() implies drec_views(out@)[p]
                        == drec_views(model)[p] by {
                        if p < before.len() {
                            assert(drec_views(before)[p] == drec_view(before[p]));
                            assert(drec_views(filtered_records(prefix, keep))[p] == drec_view(
                                filtered_records(prefix, keep)[p],
                            ));
                            assert(model[p] == filtered_records(prefix, keep)[p]);
                        } else {
                            assert(model[p] == self.records@[i as int]);
                        }
                    }
                    assert(drec_views(out@) =~= drec_views(model));
                } else {
                    assert(model =~= filtered_records(prefix, keep));
                }
            }
            i = i + 1;
        }
        proof {
            assert(self.records@.take(n as int) =~= self.records@);
            if need_read && need_write {
                assert(keep =~= (|cr: bool, cw: bool| cr && cw));
            } else if need_read {
                assert(keep =~= (|cr: bool, cw: bool| cr));
            } else if need_write {
                assert(keep =~= (|cr: bool, cw: bool| cw));
            }
        }
        out
    }
}

/// If nothing before `i` serves `ext` and `rs[i]` does, the first server is
/// at `i`.
proof fn lemma_first_serving_here(rs: Seq<DriverRecord>, ext: Seq<char>, i: int)
    requires
        0 <= i < rs.len(),
        record_serves(rs[i], ext),
        forall|k: int| 0 <= k < i ==> !record_serves(#[trigger] rs[k], ext),
    ensures
        first_serving(rs, ext) == i,
    decreases i,
{
    if i == 0 {
    } else {
        lemma_first_serving_here(rs.drop_first(), ext, i - 1);
    }
}

/// If no record serves `ext`, the first server is `-1`.
proof fn lemma_first_serving_none(rs: Seq<DriverRecord>, ext: Seq<char>)
    requires
        forall|k: int| 0 <= k < rs.len() ==> !record_serves(#[trigger] rs[k], ext),
    ensures
        first_serving(rs, ext) == -1,
    decreases rs.len(),
{
    if rs.len() == 0 {
    } else {
        lemma_first_serving_none(rs.drop_first(), ext);
    }
}

} // verus!
