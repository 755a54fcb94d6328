//! Operators over records: scanning the records of a relation, keeping
//! some of their columns, and writing them out.

use vstd::prelude::*;
use vstd::string::StringExecFns;
use crate::col_info::{ColInfo, Record};
use crate::condition::{col_index, find_column};
use crate::text::{chars_of, join, join_strings};

verus! {

/// The texts of the values of a record.
pub open spec fn record_texts(r: Record) -> Seq<Seq<char>> {
    Seq::new(r.record_tuple@.len(), |i: int| r.record_tuple@[i]@)
}

/// An iterator over records.
pub trait IRecordIterator {
    /// The records still to come, in order, each as the texts of its
    /// values.
    spec fn records_left(&self) -> Seq<Seq<Seq<char>>>;

    /// Whether the iterator can give each of the records still to come.
    spec fn ready(&self) -> bool;

    /// The next record, if any; the iterator moves past it.
    fn get_next_record(&mut self) -> (r: Option<Record>)
        requires
            old(self).ready(),
        ensures
            final(self).ready(),
            old(self).records_left().len() == 0 ==> r is None && final(self).records_left() == old(
                self,
            ).records_left(),
            old(self).records_left().len() > 0 ==> (r matches Some(rec) && record_texts(rec) == old(
                self,
            ).records_left()[0] && final(self).records_left() == old(self).records_left().drop_first()),
    ;

    /// Releases what the iterator holds.
    fn close(&mut self);

    /// Starts the iteration again from the first record.
    fn reset(&mut self);
}

/// The records of a relation, one after the other.
pub struct RelationScanner {
    pub records: Vec<Record>,
    pub current_index: usize,
}

impl RelationScanner {
    pub fn new(records: Vec<Record>) -> (s: RelationScanner)
        ensures
            s.records == records,
            s.current_index == 0,
    {
        RelationScanner { records, current_index: 0 }
    }
}

impl IRecordIterator for RelationScanner {
    open spec fn records_left(&self) -> Seq<Seq<Seq<char>>> {
        if self.current_index < self.records@.len() {
            Seq::new(
                (self.records@.len() - self.current_index) as nat,
                |i: int| record_texts(self.records@[self.current_index + i]),
            )
        } else {
            Seq::empty()
        }
    }

    open spec fn ready(&self) -> bool {
        true
    }

    /// A copy of the record at the current index, which then moves to the
    /// next one; `None` past the last record.
    fn get_next_record(&mut self) -> (r: Option<Record>)
        ensures
            final(self).records == old(self).records,
            old(self).current_index < old(self).records@.len() ==> (r matches Some(rec) && rec.record_tuple@
                == old(self).records@[old(self).current_index as int].record_tuple@ && final(self).current_index
                == old(self).current_index + 1),
            old(self).current_index >= old(self).records@.len() ==> r is None && final(self).current_index
                == old(self).current_index,
    {
        let ghost left = self.records_left();
        if self.current_index < self.records.len() {
            let record = self.records[self.current_index].duplicate();
            self.current_index = self.current_index + 1;
            assert(self.records_left() =~= left.drop_first());
            assert(record_texts(record) =~= left[0]);
            Some(record)
        } else {
            None
        }
    }

    /// Nothing to release.
    fn close(&mut self)
        ensures
            *final(self) == *old(self),
    {
    }

    /// Back to the first record.
    fn reset(&mut self)
        ensures
            final(self).records == old(self).records,
            final(self).current_index == 0,
    {
        self.current_index = 0;
    }
}

/// The values a projection keeps: for each column to keep that the
/// relation has, the record's value of the first column of that name.
pub open spec fn projection(to_keep: Seq<String>, cols: Seq<ColInfo>, rec: Seq<Seq<char>>) -> Seq<Seq<char>>
    decreases to_keep.len(),
{
    if to_keep.len() == 0 {
        Seq::empty()
    } else {
        let rest = projection(to_keep.drop_last(), cols, rec);
        let i = col_index(cols, to_keep.last()@);
        if i < cols.len() {
            rest.push(rec[i])
        } else {
            rest
        }
    }
}

/// Whether each column to keep that the relation has has a value in the
/// record.
pub open spec fn projection_defined(to_keep: Seq<String>, cols: Seq<ColInfo>, rec: Seq<Seq<char>>) -> bool {
    forall|k: int|
        0 <= k < to_keep.len() ==> (col_index(cols, (#[trigger] to_keep[k])@) < cols.len() ==> col_index(
            cols,
            to_keep[k]@,
        ) < rec.len())
}

/// Keeping some of the columns of the records that a child iterator gives.
pub struct ProjectionOperator<I: IRecordIterator> {
    pub columns_to_project: Vec<String>,
    pub child_iterator: I,
    pub col_info: Vec<ColInfo>,
}

impl<I: IRecordIterator> ProjectionOperator<I> {
    pub fn new(columns_to_project: Vec<String>, child_iterator: I, col_info: Vec<ColInfo>) -> (p: ProjectionOperator<I>)
        ensures
            p.columns_to_project == columns_to_project,
            p.child_iterator == child_iterator,
            p.col_info == col_info,
    {
        ProjectionOperator { columns_to_project, child_iterator, col_info }
    }

    /// The record made of the kept values (see `projection`).
    pub fn project_columns(&self, record: &Record) -> (r: Record)
        requires
            projection_defined(self.columns_to_project@, self.col_info@, record_texts(*record)),
        ensures
            record_texts(r) == projection(self.columns_to_project@, self.col_info@, record_texts(*record)),
    {
        let ghost keep = self.columns_to_project@;
        let ghost rec = record_texts(*record);
        let mut projected_tuple: Vec<String> = Vec::new();
        let mut k: usize = 0;
        while k < self.columns_to_project.len()
            invariant
                0 <= k <= keep.len(),
                keep == self.columns_to_project@,
                rec == record_texts(*record),
                projection_defined(keep, self.col_info@, rec),
                Seq::new(projected_tuple@.len(), |i: int| projected_tuple@[i]@) == projection(
                    keep.take(k as int),
                    self.col_info@,
                    rec,
                ),
            decreases keep.len() - k,
        {
            let name = chars_of(self.columns_to_project[k].as_str());
            let index = find_column(&self.col_info, name.as_slice());
            let ghost before = Seq::new(projected_tuple@.len(), |i: int| projected_tuple@[i]@);
            proof {
                assert(keep.take(k + 1).drop_last() =~= keep.take(k as int));
                assert(keep.take(k + 1).last() == keep[k as int]);
            }
            if index < self.col_info.len() {
                assert(col_index(self.col_info@, keep[k as int]@) < rec.len());
                let v = record.get_value(index).clone();
                projected_tuple.push(v);
                assert(Seq::new(projected_tuple@.len(), |i: int| projected_tuple@[i]@) =~= before.push(v@));
            }
            k += 1;
        }
        assert(keep.take(keep.len() as int) =~= keep);
        Record::new(projected_tuple)
    }
}

impl<I: IRecordIterator> IRecordIterator for ProjectionOperator<I> {
    /// The records still to come from the child, each projected.
    open spec fn records_left(&self) -> Seq<Seq<Seq<char>>> {
        Seq::new(
            self.child_iterator.records_left().len(),
            |i: int| projection(self.columns_to_project@, self.col_info@, self.child_iterator.records_left()[i]),
        )
    }

    /// The child is ready, and each of its records still to come has a
    /// value for each column to keep that the relation has.
    open spec fn ready(&self) -> bool {
        &&& self.child_iterator.ready()
        &&& forall|i: int|
            0 <= i < self.child_iterator.records_left().len() ==> projection_defined(
                self.columns_to_project@,
                self.col_info@,
                #[trigger] self.child_iterator.records_left()[i],
            )
    }

    /// The next record of the child, projected (see `project_columns`);
    /// the child moves past it.
    fn get_next_record(&mut self) -> (r: Option<Record>)
        ensures
            final(self).columns_to_project == old(self).columns_to_project,
            final(self).col_info == old(self).col_info,
            old(self).child_iterator.records_left().len() == 0 ==> r is None
                && final(self).child_iterator.records_left() == old(self).child_iterator.records_left(),
            old(self).child_iterator.records_left().len() > 0 ==> (r matches Some(rec) && record_texts(rec)
                == projection(
                old(self).columns_to_project@,
                old(self).col_info@,
                old(self).child_iterator.records_left()[0],
            ) && final(self).child_iterator.records_left() == old(self).child_iterator.records_left().drop_first()),
    {
        let ghost left = self.child_iterator.records_left();
        let next = self.child_iterator.get_next_record();
        proof {
            assert forall|i: int| 0 <= i < self.child_iterator.records_left().len() implies projection_defined(
                self.columns_to_project@,
                self.col_info@,
                #[trigger] self.child_iterator.records_left()[i],
            ) by {
                assert(self.child_iterator.records_left()[i] == left[i + 1]);
            }
        }
        match next {
            Some(rec) => {
                assert(projection_defined(self.columns_to_project@, self.col_info@, left[0]));
                let p = self.project_columns(&rec);
                assert(self.records_left() =~= old(self).records_left().drop_first());
                Some(p)
            },
            None => None,
        }
    }

    /// Closes the child.
    fn close(&mut self)
        ensures
            final(self).columns_to_project == old(self).columns_to_project,
            final(self).col_info == old(self).col_info,
    {
        self.child_iterator.close();
    }

    /// Starts the child again.
    fn reset(&mut self)
        ensures
            final(self).columns_to_project == old(self).columns_to_project,
            final(self).col_info == old(self).col_info,
    {
        self.child_iterator.reset();
    }
}

/// The line that a record is written as: its values joined with ` ; `.
pub open spec fn record_line(texts: Seq<Seq<char>>) -> Seq<char> {
    join(texts, " ; "@)
}

/// The line written after the records: `Total records =  N`.
pub open spec fn total_text(total: nat) -> Seq<char> {
    "Total records =  "@ + crate::text::nat_text(total)
}

/// Writes out the records that an iterator gives, and counts them.
pub struct RecordPrinter<I: IRecordIterator> {
    pub iterator: I,
    pub total: usize,
}

impl<I: IRecordIterator> RecordPrinter<I> {
    pub fn new(iterator: I) -> (p: RecordPrinter<I>)
        ensures
            p.iterator == iterator,
            p.total == 0,
    {
        RecordPrinter { iterator, total: 0 }
    }

    /// A record as a line: its values joined with ` ; `.
    pub fn format_record(record: &Record) -> (r: String)
        ensures
            r@ == record_line(record_texts(*record)),
    {
        join_strings(&record.record_tuple, " ; ")
    }

    /// The line of the next record, which is counted; `None` when no record
    /// is left.
    pub fn next_line(&mut self) -> (r: Option<String>)
        requires
            old(self).iterator.ready(),
            old(self).total < usize::MAX,
        ensures
            final(self).iterator.ready(),
            old(self).iterator.records_left().len() == 0 ==> r is None && final(self).total == old(self).total
                && final(self).iterator.records_left() == old(self).iterator.records_left(),
            old(self).iterator.records_left().len() > 0 ==> (r matches Some(l) && l@ == record_line(
                old(self).iterator.records_left()[0],
            ) && final(self).total == old(self).total + 1 && final(self).iterator.records_left() == old(
                self,
            ).iterator.records_left().drop_first()),
    {
        match self.iterator.get_next_record() {
            Some(record) => {
                self.total = self.total + 1;
                Some(Self::format_record(&record))
            },
            None => None,
        }
    }

    /// The lines written for the records left: one per record, in order,
    /// then the total of the records counted.
    pub fn print_records(&mut self) -> (r: Vec<String>)
        requires
            old(self).iterator.ready(),
            old(self).total + old(self).iterator.records_left().len() < usize::MAX,
        ensures
            final(self).iterator.ready(),
            final(self).iterator.records_left().len() == 0,
            final(self).total == old(self).total + old(self).iterator.records_left().len(),
            Seq::new(r@.len(), |i: int| r@[i]@) == Seq::new(
                old(self).iterator.records_left().len(),
                |i: int| record_line(old(self).iterator.records_left()[i]),
            ).push(total_text(final(self).total as nat)),
    {
        let ghost left = self.iterator.records_left();
        let ghost t0 = self.total;
        let mut lines: Vec<String> = Vec::new();
        loop
            invariant
                self.iterator.ready(),
                t0 + left.len() < usize::MAX,
                0 <= lines@.len() <= left.len(),
                self.total == t0 + lines@.len(),
                self.iterator.records_left() == left.skip(lines@.len() as int),
                Seq::new(lines@.len(), |i: int| lines@[i]@) == Seq::new(
                    lines@.len(),
                    |i: int| record_line(left[i]),
                ),
            ensures
                self.iterator.ready(),
                lines@.len() == left.len(),
                self.total == t0 + left.len(),
                self.iterator.records_left().len() == 0,
                Seq::new(lines@.len(), |i: int| lines@[i]@) == Seq::new(left.len(), |i: int| record_line(left[i])),
            decreases self.iterator.records_left().len(),
        {
            let ghost k = lines@.len() as int;
            match self.next_line() {
                Some(l) => {
                    let ghost before = lines@;
                    lines.push(l);
                    proof {
                        assert(left.skip(k)[0] == left[k]);
                        assert(left.skip(k).drop_first() =~= left.skip(k + 1));
                        assert(Seq::new(lines@.len(), |i: int| lines@[i]@) =~= Seq::new(
                            lines@.len(),
                            |i: int| record_line(left[i]),
                        )) by {
                            assert forall|i: int| 0 <= i < lines@.len() implies lines@[i]@ == record_line(left[i]) by {
                                if i < k {
                                    assert(lines@[i] == before[i]);
                                    assert(Seq::new(before.len(), |j: int| before[j]@)[i] == before[i]@);
                                }
                            }
                        }
                    }
                },
                None => {
                    break;
                },
            }
        }
        let t = self.total_line();
        let ghost before = lines@;
        lines.push(t);
        assert(Seq::new(lines@.len(), |i: int| lines@[i]@) =~= Seq::new(left.len(), |i: int| record_line(left[i])).push(
            total_text(self.total as nat),
        )) by {
            assert forall|i: int| 0 <= i < before.len() implies lines@[i]@ == record_line(left[i]) by {
                assert(lines@[i] == before[i]);
                assert(Seq::new(before.len(), |j: int| before[j]@)[i] == before[i]@);
            }
        }
        lines
    }

    /// The line written after the records: `Total records =  N`.
    pub fn total_line(&self) -> (r: String)
        ensures
            r@ == total_text(self.total as nat),
    {
        let mut r = String::from_str("Total records =  ");
        crate::text::push_usize_text(&mut r, self.total);
        r
    }
}

} // verus!
