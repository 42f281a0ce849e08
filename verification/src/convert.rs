//! Turning a corpus of table shards into one plain text file.
use crate::order::{sorted_positions, stable_order};
use vstd::prelude::*;
use vstd::utf8::encode_utf8;

verus! {

/// The bytes of ".parquet".
pub open spec fn shard_suffix() -> Seq<u8> {
    seq![0x2e, 0x70, 0x61, 0x72, 0x71, 0x75, 0x65, 0x74]
}

/// A file name with the extension "parquet": a stem, which may not be empty, and the suffix.
pub open spec fn is_shard_name(name: Seq<u8>) -> bool {
    name.len() > 8 && name.skip(name.len() - 8) == shard_suffix()
}

/// Positions of the shards among some file names.
pub open spec fn shard_positions(names: Seq<Vec<u8>>) -> Seq<int>
    decreases names.len(),
{
    if names.len() == 0 {
        Seq::empty()
    } else {
        let before = shard_positions(names.drop_last());
        if is_shard_name(names.last()@) {
            before.push(names.len() - 1)
        } else {
            before
        }
    }
}

/// Names of the shards among some file names.
pub open spec fn shard_names<'a>(names: Seq<Vec<u8>>) -> Seq<&'a Vec<u8>> {
    shard_positions(names).map_values(|i: int| &names[i])
}

/// Whether a file name has the extension "parquet".
pub fn is_shard(name: &Vec<u8>) -> (r: bool)
    ensures
        r == is_shard_name(name@),
{
    if name.len() <= 8 {
        return false;
    }
    let at: usize = name.len() - 8;
    let ghost tail = name@.skip(at as int);
    let r: bool = name[at] == 0x2e && name[at + 1] == 0x70 && name[at + 2] == 0x61 && name[at + 3]
        == 0x72 && name[at + 4] == 0x71 && name[at + 5] == 0x75 && name[at + 6] == 0x65 && name[at
        + 7] == 0x74;
    proof {
        if r {
            assert(tail == shard_suffix());
        } else {
            assert(forall|i: int| 0 <= i < 8 ==> tail[i] == name@[at + i]);
            let want = shard_suffix();
            assert(tail[0] != want[0] || tail[1] != want[1] || tail[2] != want[2] || tail[3]
                != want[3] || tail[4] != want[4] || tail[5] != want[5] || tail[6] != want[6]
                || tail[7] != want[7]);
        }
    }
    r
}

/// Positions of the shards among the file names of a directory, by name.
pub fn shard_order(names: &Vec<Vec<u8>>) -> (r: Vec<usize>)
    ensures
        exists|order: Seq<usize>|
            {
                &&& #[trigger] stable_order(shard_names(names@), order)
                &&& r@.map_values(|p: usize| p as int) == order.map_values(
                    |k: usize| shard_positions(names@)[k as int],
                )
            },
{
    let mut positions: Vec<usize> = Vec::new();
    let mut keys: Vec<&Vec<u8>> = Vec::new();
    for i in 0..names.len()
        invariant
            positions@.map_values(|p: usize| p as int) == shard_positions(names@.take(i as int)),
            keys@ == shard_names(names@.take(i as int)),
            forall|k: int| 0 <= k < positions@.len() ==> #[trigger] positions@[k] < i,
    {
        let ghost so_far = names@.take(i as int);
        let ghost next = names@.take(i + 1);
        let ghost before = positions@;
        assert(next.drop_last() == so_far);
        if is_shard(&names[i]) {
            positions.push(i);
            keys.push(&names[i]);
            assert(positions@.map_values(|p: usize| p as int) == before.map_values(
                |p: usize| p as int,
            ).push(i as int));
        }
        proof {
            let at = shard_positions(so_far);
            assert forall|k: int| 0 <= k < at.len() implies so_far[#[trigger] at[k]]
                == next[at[k]] by {
                assert(at[k] == before[k]);
            }
            assert(keys@ == shard_names(next));
        }
    }
    assert(names@.take(names@.len() as int) == names@);
    let order = sorted_positions(&keys);
    let mut r: Vec<usize> = Vec::new();
    for k in 0..order.len()
        invariant
            positions@.map_values(|p: usize| p as int) == shard_positions(names@),
            keys@.len() == positions@.len(),
            stable_order(keys@, order@),
            r@.len() == k,
            forall|j: int|
                0 <= j < k ==> #[trigger] r@[j] as int == shard_positions(
                    names@,
                )[order@[j] as int],
    {
        let p: usize = positions[order[k]];
        assert(p as int == shard_positions(names@)[order@[k as int] as int]);
        r.push(p);
    }
    assert(r@.map_values(|p: usize| p as int) == order@.map_values(
        |k: usize| shard_positions(names@)[k as int],
    ));
    r
}

/// What is written for some rows of a table: each document followed by an empty line. Rows without
/// a document are passed over.
pub open spec fn extracted(rows: Seq<Option<String>>) -> Seq<u8>
    decreases rows.len(),
{
    if rows.len() == 0 {
        Seq::empty()
    } else {
        let before = extracted(rows.drop_last());
        match rows.last() {
            Some(doc) => before + encode_utf8(doc@) + seq![0x0a, 0x0a],
            None => before,
        }
    }
}

/// Number of rows that hold a document.
pub open spec fn document_count(rows: Seq<Option<String>>) -> nat
    decreases rows.len(),
{
    if rows.len() == 0 {
        0
    } else {
        document_count(rows.drop_last()) + if rows.last() is Some {
            1nat
        } else {
            0
        }
    }
}

/// Counts of an extraction in progress.
pub struct Extraction {
    shard_docs: usize,
    total_docs: usize,
    total_bytes: u64,
}

impl Extraction {
    /// Documents of the present shard.
    pub closed spec fn shard_docs(&self) -> usize {
        self.shard_docs
    }

    /// Documents of the shards before it.
    pub closed spec fn total_docs(&self) -> usize {
        self.total_docs
    }

    /// Bytes written for all of them.
    pub closed spec fn total_bytes(&self) -> u64 {
        self.total_bytes
    }

    pub fn new() -> (r: Extraction)
        ensures
            r.shard_docs() == 0,
            r.total_docs() == 0,
            r.total_bytes() == 0,
    {
        Extraction { shard_docs: 0, total_docs: 0, total_bytes: 0 }
    }

    /// Bytes to write for a batch of rows.
    pub fn take_batch(&mut self, rows: &Vec<Option<String>>) -> (r: Vec<u8>)
        requires
            old(self).shard_docs() + document_count(rows@) <= usize::MAX,
            old(self).total_bytes() + extracted(rows@).len() <= u64::MAX,
        ensures
            r@ == extracted(rows@),
            final(self).shard_docs() == old(self).shard_docs() + document_count(rows@),
            final(self).total_docs() == old(self).total_docs(),
            final(self).total_bytes() == old(self).total_bytes() + r@.len(),
    {
        let mut out: Vec<u8> = Vec::new();
        let mut docs: usize = 0;
        for i in 0..rows.len()
            invariant
                out@ == extracted(rows@.take(i as int)),
                docs == document_count(rows@.take(i as int)),
                docs <= i,
        {
            assert(rows@.take(i + 1).drop_last() == rows@.take(i as int));
            if let Some(doc) = &rows[i] {
                let ghost before = out@;
                out.extend_from_slice(doc.as_str().as_bytes());
                assert(out@ == before + encode_utf8(doc@));
                out.push(0x0a);
                out.push(0x0a);
                assert(out@ == before + encode_utf8(doc@) + seq![0x0a, 0x0a]);
                docs = docs + 1;
            }
        }
        assert(rows@.take(rows@.len() as int) == rows@);
        self.shard_docs = self.shard_docs + docs;
        self.total_bytes = self.total_bytes + out.len() as u64;
        out
    }

    /// Ends a shard and gives the number of its documents.
    pub fn end_shard(&mut self) -> (r: usize)
        requires
            old(self).total_docs() + old(self).shard_docs() <= usize::MAX,
        ensures
            r == old(self).shard_docs(),
            final(self).shard_docs() == 0,
            final(self).total_docs() == old(self).total_docs() + old(self).shard_docs(),
            final(self).total_bytes() == old(self).total_bytes(),
    {
        let docs: usize = self.shard_docs;
        self.total_docs = self.total_docs + docs;
        self.shard_docs = 0;
        docs
    }

    pub fn documents(&self) -> (r: usize)
        ensures
            r == self.total_docs(),
    {
        self.total_docs
    }

    /// Documents of the present shard so far.
    pub fn documents_in_shard(&self) -> (r: usize)
        ensures
            r == self.shard_docs(),
    {
        self.shard_docs
    }

    pub fn bytes(&self) -> (r: u64)
        ensures
            r == self.total_bytes(),
    {
        self.total_bytes
    }
}

/// However the rows of a shard are cut into batches, the same text is written and the same
/// documents are counted.
pub proof fn law_batches_do_not_matter(first: Seq<Option<String>>, second: Seq<Option<String>>)
    ensures
        extracted(first + second) == extracted(first) + extracted(second),
        document_count(first + second) == document_count(first) + document_count(second),
    decreases second.len(),
{
    if second.len() == 0 {
        assert(first + second == first);
    } else {
        law_batches_do_not_matter(first, second.drop_last());
        assert((first + second).drop_last() == first + second.drop_last());
        assert(extracted(first + second) == extracted(first) + extracted(second));
    }
}

/// A row that holds a document is written as the whole document and an empty line, whatever is in
/// it and however long it is; a row without one is not written. The first counts as a document, the
/// second does not. With the law on batches this settles what is written for any rows.
pub proof fn law_one_row(doc: String)
    ensures
        extracted(seq![Some(doc)]) == encode_utf8(doc@) + seq![0x0au8, 0x0au8],
        extracted(seq![None::<String>]) == Seq::<u8>::empty(),
        extracted(Seq::empty()) == Seq::<u8>::empty(),
        document_count(seq![Some(doc)]) == 1,
        document_count(seq![None::<String>]) == 0,
        document_count(Seq::empty()) == 0,
{
    reveal_with_fuel(extracted, 2);
    reveal_with_fuel(document_count, 2);
    let (some, none) = (seq![Some(doc)], seq![None::<String>]);
    assert(some.drop_last() == Seq::<Option<String>>::empty());
    assert(none.drop_last() == Seq::<Option<String>>::empty());
    assert(extracted(some) == encode_utf8(doc@) + seq![0x0au8, 0x0au8]);
}

/// A shard's name is ".parquet" behind at least one byte, whatever that is, and nothing else is.
pub proof fn law_shard_names_end_in_parquet(stem: Seq<u8>, name: Seq<u8>)
    ensures
        is_shard_name(stem + seq![0x2eu8, 0x70, 0x61, 0x72, 0x71, 0x75, 0x65, 0x74]) <==> stem.len()
            > 0,
        is_shard_name(name) ==> name.len() > 8 && name == name.take(name.len() - 8) + seq![
            0x2eu8,
            0x70,
            0x61,
            0x72,
            0x71,
            0x75,
            0x65,
            0x74,
        ],
{
    let suffix = seq![0x2eu8, 0x70, 0x61, 0x72, 0x71, 0x75, 0x65, 0x74];
    assert((stem + suffix).skip(stem.len() as int) == suffix);
    if is_shard_name(name) {
        assert(name.take(name.len() - 8) + name.skip(name.len() - 8) == name);
    }
}

/// Every shard is taken, each once and with its own name, and nothing else is.
pub proof fn law_every_shard_is_taken(names: Seq<Vec<u8>>)
    ensures
        forall|i: int|
            #[trigger] shard_positions(names).contains(i) <==> 0 <= i < names.len()
                && is_shard_name(names[i]@),
        forall|a: int, b: int|
            0 <= a < b < shard_positions(names).len() ==> #[trigger] shard_positions(names)[a]
                < #[trigger] shard_positions(names)[b],
        shard_names(names).len() == shard_positions(names).len(),
        forall|k: int|
            0 <= k < shard_positions(names).len() ==> (#[trigger] shard_names(names)[k])@
                == names[shard_positions(names)[k]]@,
    decreases names.len(),
{
    if names.len() > 0 {
        let before = names.drop_last();
        law_every_shard_is_taken(before);
        let (p, q) = (shard_positions(before), shard_positions(names));
        assert forall|k: int| 0 <= k < p.len() implies 0 <= #[trigger] p[k] < before.len() by {
            assert(p.contains(p[k]));
        }
        assert forall|i: int| #[trigger] q.contains(i) <==> 0 <= i < names.len() && is_shard_name(
            names[i]@,
        ) by {
            if q.contains(i) {
                let k = choose|k: int| 0 <= k < q.len() && q[k] == i;
                if k < p.len() {
                    assert(p[k] == i);
                    assert(p.contains(i));
                    assert(before[i] == names[i]);
                }
            }
            if 0 <= i < names.len() && is_shard_name(names[i]@) {
                if i < before.len() {
                    assert(before[i] == names[i]);
                    assert(p.contains(i));
                    let k = choose|k: int| 0 <= k < p.len() && p[k] == i;
                    assert(q[k] == i);
                } else {
                    assert(q[p.len() as int] == i);
                }
            }
        }
    }
}

} // verus!
