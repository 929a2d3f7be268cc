//! Byte strings of a column, each distinct content kept once.

use std::collections::HashMap;
use vstd::prelude::*;
use crate::value::{bytes_clone, bytes_eq};

verus! {

broadcast use vstd::std_specs::hash::group_hash_axioms;

/// The hash of a byte string: from a fixed start, each byte in turn multiplies
/// what came before and adds itself, all within 64 bits.
pub open spec fn content_hash(s: Seq<u8>) -> u64
    decreases s.len(),
{
    if s.len() == 0 {
        0xcbf2_9ce4_8422_2325
    } else {
        ((content_hash(s.drop_last()) * 0x100_0000_01b3 + s.last() + 1)
            % 0x1_0000_0000_0000_0000) as u64
    }
}

/// Computes the hash of a byte string.
pub fn hash_of(bytes: &Vec<u8>) -> (r: u64)
    ensures
        r == content_hash(bytes@),
{
    let mut h: u64 = 0xcbf2_9ce4_8422_2325;
    let mut i: usize = 0;
    assert(bytes@.subrange(0, 0) =~= Seq::<u8>::empty());
    while i < bytes.len()
        invariant
            i <= bytes.len(),
            h == content_hash(bytes@.subrange(0, i as int)),
        decreases bytes.len() - i,
    {
        let ghost longer = bytes@.subrange(0, i + 1);
        assert(longer.drop_last() =~= bytes@.subrange(0, i as int));
        assert(longer.last() == bytes@[i as int]);
        let wide: u128 = h as u128 * 0x100_0000_01b3 + bytes[i] as u128 + 1;
        h = (wide % 0x1_0000_0000_0000_0000) as u64;
        i += 1;
    }
    assert(bytes@.subrange(0, bytes@.len() as int) =~= bytes@);
    h
}

/// Whether the index lists entry `k` under the hash `h`.
#[verifier::opaque]
pub open spec fn listed(index: Map<u64, Vec<usize>>, h: u64, k: usize) -> bool {
    index.contains_key(h) && exists|j: int| 0 <= j < index[h]@.len() && index[h]@[j] == k
}

/// Lists entry `k` under the hash `h`.
fn link(index: &mut HashMap<u64, Vec<usize>>, h: u64, k: usize)
    ensures
        forall|g: u64, e: usize|
            #[trigger] listed(final(index)@, g, e) <==> listed(old(index)@, g, e) || (g == h && e
                == k),
{
    let mut list: Vec<usize> = match index.remove(&h) {
        Some(list) => list,
        None => Vec::new(),
    };
    let ghost before = list@;
    list.push(k);
    let ghost after = list@;
    index.insert(h, list);
    assert forall|g: u64, e: usize| #[trigger]
        listed(index@, g, e) <==> listed(old(index)@, g, e) || (g == h && e == k) by {
        reveal(listed);
        if g == h {
            if listed(old(index)@, g, e) {
                let j = choose|j: int| 0 <= j < before.len() && before[j] == e;
                assert(after[j] == e);
            }
            if e == k {
                assert(after[before.len() as int] == k);
            }
            if listed(index@, g, e) {
                let j = choose|j: int| 0 <= j < after.len() && after[j] == e;
                if j < before.len() {
                    assert(before[j] == e);
                }
            }
        } else {
            assert(index@.contains_key(g) == old(index)@.contains_key(g));
            if index@.contains_key(g) {
                assert(index@[g] == old(index)@[g]);
            }
        }
    }
}

/// The byte strings of a column. Equal contents share one entry of the pool,
/// and an index by hash finds the entry of a content.
pub struct StringPool {
    /// The distinct contents, in order of first appearance.
    pub items: Vec<Vec<u8>>,
    /// For each row, the entry that holds its content.
    pub rows: Vec<usize>,
    /// For each hash, the entries whose content has it.
    pub index: HashMap<u64, Vec<usize>>,
}

impl View for StringPool {
    type V = Seq<Seq<u8>>;

    open spec fn view(&self) -> Seq<Seq<u8>> {
        Seq::new(self.rows@.len(), |i: int| self.items@[self.rows@[i] as int]@)
    }
}

impl StringPool {
    /// Every row points into the pool, no content is kept twice, and the
    /// index lists each entry under the hash of its content.
    pub open spec fn wf(&self) -> bool {
        &&& forall|i: int| 0 <= i < self.rows@.len() ==> (#[trigger] self.rows@[i]) < self.items@.len()
        &&& forall|a: int, b: int|
            0 <= a < b < self.items@.len() ==> (#[trigger] self.items@[a])@ != (
            #[trigger] self.items@[b])@
        &&& forall|k: int|
            0 <= k < self.items@.len() ==> listed(
                self.index@,
                content_hash((#[trigger] self.items@[k])@),
                k as usize,
            )
    }

    /// An empty pool.
    pub fn new() -> (r: Self)
        ensures
            r.wf(),
            r@ == Seq::<Seq<u8>>::empty(),
    {
        let r = StringPool { items: Vec::new(), rows: Vec::new(), index: HashMap::new() };
        assert(r@ =~= Seq::<Seq<u8>>::empty());
        r
    }

    /// Number of rows.
    pub fn len(&self) -> (r: usize)
        ensures
            r == self@.len(),
    {
        self.rows.len()
    }

    /// Number of distinct contents.
    pub fn distinct(&self) -> (r: usize)
        ensures
            r == self.items@.len(),
    {
        self.items.len()
    }

    /// The content of row `index`.
    pub fn get(&self, index: usize) -> (r: &Vec<u8>)
        requires
            self.wf(),
            index < self@.len(),
        ensures
            r@ == self@[index as int],
    {
        &self.items[self.rows[index]]
    }

    /// The entry that holds `bytes`, if the pool has one.
    pub fn find(&self, bytes: &Vec<u8>) -> (r: Option<usize>)
        requires
            self.wf(),
        ensures
            match r {
                Some(k) => k < self.items@.len() && self.items@[k as int]@ == bytes@,
                None => forall|j: int| 0 <= j < self.items@.len() ==> (#[trigger] self.items@[j])@
                    != bytes@,
            },
    {
        let h = hash_of(bytes);
        let list = match self.index.get(&h) {
            Some(list) => list,
            None => {
                assert forall|j: int| 0 <= j < self.items@.len() implies (#[trigger] self.items@[j])@
                    != bytes@ by {
                    if self.items@[j]@ == bytes@ {
                        assert(listed(self.index@, h, j as usize));
                        reveal(listed);
                    }
                }
                return None;
            },
        };
        let n = self.items.len();
        let mut i: usize = 0;
        while i < list.len()
            invariant
                i <= list.len(),
                n == self.items@.len(),
                forall|j: int|
                    0 <= j < i && (#[trigger] list@[j]) < n ==> self.items@[list@[j] as int]@
                        != bytes@,
            decreases list.len() - i,
        {
            if list[i] < n && bytes_eq(&self.items[list[i]], bytes) {
                return Some(list[i]);
            }
            i += 1;
        }
        assert forall|j: int| 0 <= j < self.items@.len() implies (#[trigger] self.items@[j])@
            != bytes@ by {
            if self.items@[j]@ == bytes@ {
                assert(listed(self.index@, h, j as usize));
                reveal(listed);
                let at = choose|at: int| 0 <= at < list@.len() && list@[at] == j as usize;
                assert(self.items@[list@[at] as int]@ != bytes@);
            }
        }
        None
    }

    /// Decides whether the pool is well formed.
    pub fn is_well_formed(&self) -> (r: bool)
        ensures
            r == self.wf(),
    {
        let n = self.items.len();
        let mut i: usize = 0;
        while i < self.rows.len()
            invariant
                i <= self.rows.len(),
                n == self.items@.len(),
                forall|j: int| 0 <= j < i ==> (#[trigger] self.rows@[j]) < n,
            decreases self.rows.len() - i,
        {
            if self.rows[i] >= n {
                return false;
            }
            i += 1;
        }
        let mut k: usize = 0;
        while k < n
            invariant
                k <= n == self.items@.len(),
                forall|j: int| 0 <= j < self.rows@.len() ==> (#[trigger] self.rows@[j]) < n,
                forall|a: int, b: int|
                    0 <= a < b < k ==> (#[trigger] self.items@[a])@ != (#[trigger] self.items@[b])@,
                forall|e: int|
                    0 <= e < k ==> listed(
                        self.index@,
                        content_hash((#[trigger] self.items@[e])@),
                        e as usize,
                    ),
            decreases n - k,
        {
            if !self.entry_is_sound(k) {
                return false;
            }
            proof {
                let h = content_hash(self.items@[k as int]@);
                assert forall|a: int| 0 <= a < k implies (#[trigger] self.items@[a])@
                    != self.items@[k as int]@ by {
                    if self.items@[a]@ == self.items@[k as int]@ {
                        assert(listed(self.index@, content_hash(self.items@[a]@), a as usize));
                        assert(listed(self.index@, h, a as usize));
                    }
                }
            }
            k += 1;
        }
        true
    }

    /// Whether the index lists entry `k` under the hash of its content, and no
    /// entry listed there beside it has the same content.
    fn entry_is_sound(&self, k: usize) -> (r: bool)
        requires
            k < self.items@.len(),
        ensures
            r ==> listed(self.index@, content_hash(self.items@[k as int]@), k),
            r ==> forall|e: usize|
                e != k && e < self.items@.len() && #[trigger] listed(
                    self.index@,
                    content_hash(self.items@[k as int]@),
                    e,
                ) ==> self.items@[e as int]@ != self.items@[k as int]@,
            !r ==> !self.wf(),
    {
        let n = self.items.len();
        let h = hash_of(&self.items[k]);
        let list = match self.index.get(&h) {
            Some(list) => list,
            None => {
                assert(!listed(self.index@, h, k)) by {
                    reveal(listed);
                }
                return false;
            },
        };
        let mut found = false;
        let mut i: usize = 0;
        while i < list.len()
            invariant
                i <= list.len(),
                k < n == self.items@.len(),
                h == content_hash(self.items@[k as int]@),
                self.index@.contains_key(h),
                *list == self.index@[h],
                found <==> exists|j: int| 0 <= j < i && list@[j] == k,
                forall|j: int|
                    0 <= j < i && (#[trigger] list@[j]) != k && list@[j] < n
                        ==> self.items@[list@[j] as int]@ != self.items@[k as int]@,
            decreases list.len() - i,
        {
            let e = list[i];
            if e == k {
                found = true;
            } else if e < n && bytes_eq(&self.items[e], &self.items[k]) {
                assert(listed(self.index@, content_hash(self.items@[e as int]@), e) ==> true);
                assert(!self.wf()) by {
                    if e < k {
                        assert(self.items@[e as int]@ == self.items@[k as int]@);
                    } else {
                        assert(self.items@[k as int]@ == self.items@[e as int]@);
                    }
                }
                return false;
            }
            i += 1;
        }
        if !found {
            assert(!listed(self.index@, h, k)) by {
                reveal(listed);
            }
            return false;
        }
        assert(listed(self.index@, h, k)) by {
            reveal(listed);
        }
        assert forall|e: usize|
            e != k && e < self.items@.len() && #[trigger] listed(self.index@, h, e) implies self.items@[e as int]@
            != self.items@[k as int]@ by {
            reveal(listed);
            let j = choose|j: int| 0 <= j < list@.len() && list@[j] == e;
            assert(list@[j] != k);
        }
        true
    }

    /// Appends one row with the content `bytes`. The pool gains an entry only
    /// where it held no equal content.
    pub fn push(&mut self, bytes: &Vec<u8>)
        requires
            old(self).wf(),
        ensures
            final(self).wf(),
            final(self)@ == old(self)@.push(bytes@),
            final(self).items@.len() == old(self).items@.len() + (if exists|j: int|
                0 <= j < old(self).items@.len() && (#[trigger] old(self).items@[j])@ == bytes@ {
                0int
            } else {
                1int
            }),
    {
        let entry = match self.find(bytes) {
            Some(k) => k,
            None => {
                let k = self.items.len();
                self.items.push(bytes_clone(bytes));
                link(&mut self.index, hash_of(bytes), k);
                assert forall|e: int| 0 <= e < self.items@.len() implies listed(
                    self.index@,
                    content_hash((#[trigger] self.items@[e])@),
                    e as usize,
                ) by {
                    if e < k {
                        assert(self.items@[e] == old(self).items@[e]);
                        assert(listed(
                            old(self).index@,
                            content_hash(old(self).items@[e]@),
                            e as usize,
                        ));
                    }
                }
                k
            },
        };
        self.rows.push(entry);
        assert(self@ =~= old(self)@.push(bytes@));
    }

    /// An independent copy.
    pub fn clone_instance(&self) -> (r: Self)
        requires
            self.wf(),
        ensures
            r.wf(),
            r@ == self@,
            r.items@.len() == self.items@.len(),
    {
        let mut items: Vec<Vec<u8>> = Vec::with_capacity(self.items.len());
        let mut index: HashMap<u64, Vec<usize>> = HashMap::new();
        let mut k: usize = 0;
        while k < self.items.len()
            invariant
                k <= self.items.len(),
                items@.len() == k,
                forall|j: int| 0 <= j < k ==> (#[trigger] items@[j])@ == self.items@[j]@,
                forall|j: int|
                    0 <= j < k ==> listed(index@, content_hash((#[trigger] items@[j])@), j as usize),
            decreases self.items.len() - k,
        {
            let ghost held = items@;
            let ghost linked = index@;
            let copy = bytes_clone(&self.items[k]);
            link(&mut index, hash_of(&copy), k);
            items.push(copy);
            assert forall|j: int| 0 <= j < k + 1 implies listed(
                index@,
                content_hash((#[trigger] items@[j])@),
                j as usize,
            ) by {
                if j < k {
                    assert(items@[j] == held[j]);
                    assert(listed(linked, content_hash(held[j]@), j as usize));
                }
            }
            k += 1;
        }
        let mut rows: Vec<usize> = Vec::with_capacity(self.rows.len());
        let mut i: usize = 0;
        while i < self.rows.len()
            invariant
                i <= self.rows.len(),
                rows@ == self.rows@.subrange(0, i as int),
            decreases self.rows.len() - i,
        {
            rows.push(self.rows[i]);
            assert(rows@ =~= self.rows@.subrange(0, i + 1));
            i += 1;
        }
        assert(self.rows@.subrange(0, self.rows@.len() as int) =~= self.rows@);
        let r = StringPool { items, rows, index };
        assert(r@ =~= self@);
        r
    }
}

} // verus!
