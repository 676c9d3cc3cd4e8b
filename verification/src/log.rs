//! The append-only log: an ordered sequence of records, never reordered
//! or removed, with an optional backing file and a cursor marking how
//! many entries are already durably stored.
//!
//! The log itself is pure: persistence returns the lines that belong in
//! the backing file, and loading takes the lines read from it, so that
//! everything the log decides is verified.

use vstd::prelude::*;
use vstd::string::StringSliceAdditionalSpecFns;

use crate::codec::{json_of, parse_record};
use crate::crypto::{b64_dec_of, b64_of, single_line, MAX_B64_LEN, MAX_ENCODABLE_LEN};
use crate::reid::{Reid, ReidV};

verus! {

/// The append-only log of records.
pub struct Log {
    entries: Vec<Reid>,
    path: Option<String>,
    file_pos: usize,
}

/// A record the log can hold: well-formed and small enough to encode.
pub open spec fn storable(r: ReidV) -> bool {
    r.wf() && json_of(r).len() <= MAX_ENCODABLE_LEN
}

/// A line that is the wire form of some storable record.
pub open spec fn line_good(line: Seq<char>) -> bool {
    exists|rv: ReidV|
        storable(rv) && line == b64_of(json_of(rv)) && vstd::utf8::encode_utf8(line).len()
            <= MAX_B64_LEN
}

/// Whether the predicate, run on some reference to a record with this
/// model, can return false.
pub open spec fn pred_false_at<F: Fn(&Reid) -> bool>(p: F, r: ReidV) -> bool {
    exists|y: &Reid| y@ == r && #[trigger] call_ensures(p, (y,), false)
}

impl Log {
    /// The models of the entries, in insertion order.
    pub closed spec fn spec_entries(&self) -> Seq<ReidV> {
        self.entries@.map_values(|r: Reid| r@)
    }

    /// The backing path, if one is configured.
    pub closed spec fn spec_path(&self) -> Option<Seq<char>> {
        match self.path {
            None => None,
            Some(p) => Some(p@),
        }
    }

    /// How many entries are already flushed to the backing file.
    pub closed spec fn spec_flushed(&self) -> int {
        self.file_pos as int
    }

    /// The flushed cursor never passes the end, and every entry can be
    /// encoded.
    pub open spec fn wf(&self) -> bool {
        &&& 0 <= self.spec_flushed() <= self.spec_entries().len()
        &&& forall|i: int|
            0 <= i < self.spec_entries().len() ==> storable(#[trigger] self.spec_entries()[i])
    }

    /// An empty log, optionally backed by a file at the given path.
    pub fn new(path: Option<String>) -> (r: Log)
        ensures
            r.spec_entries() == Seq::<ReidV>::empty(),
            r.spec_path() == (match path {
                None => None::<Seq<char>>,
                Some(p) => Some(p@),
            }),
            r.spec_flushed() == 0,
            r.wf(),
    {
        let l = Log { entries: Vec::new(), path, file_pos: 0 };
        proof {
            assert(l.spec_entries() =~= Seq::<ReidV>::empty());
        }
        l
    }

    /// Replays a persisted log: one record per line, in order. Any line
    /// that fails to decode is a fatal load error reported with its
    /// index; nothing is loaded then.
    #[verifier::rlimit(100)]
    pub fn new_from_lines(path: String, lines: &Vec<String>) -> (r: Result<Log, usize>)
        ensures
            match r {
                Ok(l) => {
                    &&& l.wf()
                    &&& l.spec_path() == Some(path@)
                    &&& l.spec_flushed() == lines@.len()
                    &&& l.spec_entries().len() == lines@.len()
                    &&& forall|i: int|
                        0 <= i < lines@.len() ==> parse_record(
                            b64_dec_of(#[trigger] lines@[i]@),
                        ) == Some(l.spec_entries()[i])
                },
                Err(ix) => 0 <= ix < lines@.len() && !line_good(lines@[ix as int]@),
            },
    {
        let n = lines.len();
        let mut entries: Vec<Reid> = Vec::new();
        let mut i: usize = 0;
        while i < n
            invariant
                i <= n,
                n == lines@.len(),
                entries@.len() == i,
                forall|k: int|
                    0 <= k < i ==> parse_record(b64_dec_of(#[trigger] lines@[k]@)) == Some(
                        entries@[k]@,
                    ),
                forall|k: int| 0 <= k < i ==> storable((#[trigger] entries@[k])@),
            decreases n - i,
        {
            let line: &String = &lines[i];
            if line.as_str().as_bytes().len() > MAX_B64_LEN {
                proof {
                    assert(vstd::utf8::encode_utf8(lines@[i as int]@).len() > MAX_B64_LEN);
                }
                return Err(i);
            }
            match Reid::decode(line.as_str()) {
                None => {
                    proof {
                        if line_good(lines@[i as int]@) {
                            let rv = choose|rv: ReidV|
                                storable(rv) && lines@[i as int]@ == b64_of(json_of(rv))
                                    && vstd::utf8::encode_utf8(lines@[i as int]@).len()
                                    <= MAX_B64_LEN;
                            assert(false);
                        }
                    }
                    return Err(i);
                }
                Some(rec) => {
                    let ghost prev = entries@;
                    entries.push(rec);
                    proof {
                        assert(entries@.map_values(|r: Reid| r@) =~= prev.map_values(
                            |r: Reid| r@,
                        ).push(entries@.last()@));
                    }
                }
            }
            i = i + 1;
        }
        let l = Log { entries, path: Some(path), file_pos: i };
        Ok(l)
    }

    /// Appends a record at the end: the length grows by exactly one and
    /// the new record becomes the tail; nothing else changes.
    pub fn append(&mut self, val: Reid)
        requires
            old(self).wf(),
            storable(val@),
        ensures
            final(self).spec_entries() == old(self).spec_entries().push(val@),
            final(self).spec_entries().len() == old(self).spec_entries().len() + 1,
            final(self).spec_entries().last() == val@,
            final(self).spec_path() == old(self).spec_path(),
            final(self).spec_flushed() == old(self).spec_flushed(),
            final(self).wf(),
    {
        let ghost prev = self.entries@;
        let ghost v = val@;
        self.entries.push(val);
        proof {
            assert(self.entries@.map_values(|r: Reid| r@) =~= prev.map_values(
                |r: Reid| r@,
            ).push(v));
        }
    }

    /// The first (oldest) entry, or nothing if the log is empty.
    pub fn head(&self) -> (r: Option<&Reid>)
        ensures
            match r {
                Some(rec) => self.spec_entries().len() > 0 && rec@ == self.spec_entries()[0],
                None => self.spec_entries().len() == 0,
            },
    {
        if self.entries.len() == 0 {
            None
        } else {
            Some(&self.entries[0])
        }
    }

    /// The last (most recently appended) entry, or nothing if empty.
    pub fn tail(&self) -> (r: Option<&Reid>)
        ensures
            match r {
                Some(rec) => self.spec_entries().len() > 0 && rec@ == self.spec_entries().last(),
                None => self.spec_entries().len() == 0,
            },
    {
        let n = self.entries.len();
        if n == 0 {
            None
        } else {
            Some(&self.entries[n - 1])
        }
    }

    /// The last `min(n, length)` entries, oldest to newest.
    pub fn tailn(&self, n: usize) -> (r: Vec<Reid>)
        ensures
            r@.map_values(|x: Reid| x@) == self.spec_entries().skip(
                if n <= self.spec_entries().len() {
                    self.spec_entries().len() - n
                } else {
                    0
                },
            ),
    {
        let len = self.entries.len();
        let start = if n <= len {
            len - n
        } else {
            0
        };
        let mut out: Vec<Reid> = Vec::new();
        let mut i = start;
        while i < len
            invariant
                start <= i <= len,
                len == self.entries@.len(),
                out@.len() == i - start,
                forall|k: int|
                    0 <= k < out@.len() ==> (#[trigger] out@[k])@ == self.spec_entries()[start
                        + k],
            decreases len - i,
        {
            out.push(self.entries[i].clone());
            i = i + 1;
        }
        proof {
            assert(out@.map_values(|x: Reid| x@) =~= self.spec_entries().skip(start as int));
        }
        out
    }

    /// The number of entries.
    pub fn len(&self) -> (r: usize)
        ensures
            r == self.spec_entries().len(),
    {
        self.entries.len()
    }

    pub fn is_empty(&self) -> (r: bool)
        ensures
            r == (self.spec_entries().len() == 0),
    {
        self.entries.is_empty()
    }

    /// Scans from the most recent entry to the oldest and returns the
    /// first match: the log never deletes, so the latest entry for a
    /// given predicate is the authoritative current state.
    pub fn search<F: Fn(&Reid) -> bool>(&self, predicate: F) -> (r: Option<&Reid>)
        requires
            forall|x: &Reid| #[trigger] call_requires(predicate, (x,)),
        ensures
            match r {
                Some(rec) => exists|i: int|
                    #![trigger self.spec_entries()[i]]
                    0 <= i < self.spec_entries().len() && rec@ == self.spec_entries()[i]
                        && call_ensures(predicate, (rec,), true) && forall|j: int|
                        i < j < self.spec_entries().len() ==> pred_false_at(
                            predicate,
                            #[trigger] self.spec_entries()[j],
                        ),
                None => forall|j: int|
                    0 <= j < self.spec_entries().len() ==> pred_false_at(
                        predicate,
                        #[trigger] self.spec_entries()[j],
                    ),
            },
    {
        let len = self.entries.len();
        let mut i = len;
        while i > 0
            invariant
                0 <= i <= len,
                len == self.entries@.len(),
                forall|x: &Reid| #[trigger] call_requires(predicate, (x,)),
                forall|j: int|
                    i <= j < len ==> pred_false_at(predicate, #[trigger] self.spec_entries()[j]),
            decreases i,
        {
            i = i - 1;
            let entry = &self.entries[i];
            if predicate(entry) {
                proof {
                    assert(entry@ == self.spec_entries()[i as int]);
                    assert(call_ensures(predicate, (entry,), true));
                }
                return Some(entry);
            }
            proof {
                assert(call_ensures(predicate, (entry,), false));
                assert(entry@ == self.spec_entries()[i as int]);
                assert(pred_false_at(predicate, self.spec_entries()[i as int]));
            }
        }
        None
    }

    /// Looks up the most recent entry whose id equals the given one: if
    /// two entries share an id, the later one wins.
    pub fn search_id(&self, id: &Vec<u8>) -> (r: Option<&Reid>)
        ensures
            match r {
                Some(rec) => exists|i: int|
                    0 <= i < self.spec_entries().len() && rec@ == self.spec_entries()[i]
                        && rec@.id == id@ && forall|j: int|
                        i < j < self.spec_entries().len() ==> (
                        #[trigger] self.spec_entries()[j]).id != id@,
                None => forall|j: int|
                    0 <= j < self.spec_entries().len() ==> (
                    #[trigger] self.spec_entries()[j]).id != id@,
            },
    {
        let len = self.entries.len();
        let mut i = len;
        while i > 0
            invariant
                0 <= i <= len,
                len == self.entries@.len(),
                forall|j: int|
                    i <= j < len ==> (#[trigger] self.spec_entries()[j]).id != id@,
            decreases i,
        {
            i = i - 1;
            let entry = &self.entries[i];
            if crate::id_equal(entry.get_id(), vstd::slice::slice_to_vec(id.as_slice())) {
                proof {
                    assert(entry@ == self.spec_entries()[i as int]);
                }
                return Some(entry);
            }
            proof {
                assert(self.spec_entries()[i as int].id != id@);
            }
        }
        None
    }

    /// What a persist writes, as a relation between the state before, the
    /// state after, and the lines appended to the backing file.
    pub open spec fn persist_effect(pre: Log, post: Log, lines: Seq<Seq<char>>) -> bool {
        &&& pre.spec_path() is Some
        &&& post.spec_entries() == pre.spec_entries()
        &&& post.spec_path() == pre.spec_path()
        &&& post.spec_flushed() == pre.spec_entries().len()
        &&& lines.len() == pre.spec_entries().len() - pre.spec_flushed()
        &&& forall|i: int|
            0 <= i < lines.len() ==> #[trigger] lines[i] == b64_of(
                json_of(pre.spec_entries()[pre.spec_flushed() + i]),
            ) && single_line(lines[i])
    }

    /// Computes the lines pending persistence (the entries from the
    /// flushed cursor to the end, one wire-form line each) and advances
    /// the cursor past them. With no backing path this is a reported
    /// no-op, not an error.
    pub fn persist(&mut self) -> (r: Option<Vec<String>>)
        requires
            old(self).wf(),
        ensures
            match r {
                Some(lines) => Log::persist_effect(
                    *old(self),
                    *final(self),
                    lines@.map_values(|s: String| s@),
                ),
                None => old(self).spec_path() is None && *final(self) == *old(self),
            },
            final(self).wf(),
    {
        if self.path.is_none() {
            return None;
        }
        let len = self.entries.len();
        let mut lines: Vec<String> = Vec::new();
        let mut i = self.file_pos;
        while i < len
            invariant
                old(self).spec_flushed() <= i <= len,
                *self == *old(self),
                self.wf(),
                len == self.entries@.len(),
                lines@.len() == i - old(self).spec_flushed(),
                forall|k: int|
                    0 <= k < lines@.len() ==> (#[trigger] lines@[k])@ == b64_of(
                        json_of(self.spec_entries()[old(self).spec_flushed() + k]),
                    ) && single_line(lines@[k]@),
            decreases len - i,
        {
            proof {
                assert(storable(self.spec_entries()[i as int]));
                assert(self.entries@[i as int]@ == self.spec_entries()[i as int]);
            }
            let line = self.entries[i].encode();
            lines.push(line);
            i = i + 1;
        }
        self.file_pos = len;
        proof {
            assert(final(self).spec_entries() =~= old(self).spec_entries());
        }
        Some(lines)
    }

    /// The backing path, if any.
    pub fn path(&self) -> (r: &Option<String>)
        ensures
            match r {
                None => self.spec_path() is None,
                Some(p) => self.spec_path() == Some(p@),
            },
    {
        &self.path
    }

    /// How many entries are already flushed.
    pub fn flushed(&self) -> (r: usize)
        ensures
            r as int == self.spec_flushed(),
    {
        self.file_pos
    }
}

/// Persisting is idempotent: a second persist with no intervening append
/// writes no lines and leaves the cursor, the entries and the path
/// unchanged.
pub proof fn lemma_persist_idempotent(
    pre: Log,
    mid: Log,
    lines1: Seq<Seq<char>>,
    post: Log,
    lines2: Seq<Seq<char>>,
)
    requires
        Log::persist_effect(pre, mid, lines1),
        Log::persist_effect(mid, post, lines2),
    ensures
        lines2.len() == 0,
        post.spec_flushed() == mid.spec_flushed(),
        post.spec_entries() == mid.spec_entries(),
        post.spec_path() == mid.spec_path(),
{
}

} // verus!
