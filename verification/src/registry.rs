//! Multivector classes and their registry.
//!
//! A multivector class is a user-declared named subspace: an ordered sequence
//! of groups of basis blades.  Grouping is a pure layout hint with no
//! algebraic meaning.  Classes are registered once and looked up by their
//! structural signature — the flattened sequence of blade indices — with the
//! last registration winning the lookup for a repeated signature.

use vstd::prelude::*;
use crate::algebra::BasisElement;

verus! {

/// A named collection of basis blades, grouped for layout.
pub struct MultiVectorClass {
    pub class_name: String,
    pub grouped_basis: Vec<Vec<BasisElement>>,
}

/// Flattening of grouped blades into one sequence.
pub open spec fn flat_of(groups: Seq<Seq<BasisElement>>) -> Seq<BasisElement>
    decreases groups.len(),
{
    if groups.len() == 0 {
        Seq::empty()
    } else {
        groups[0] + flat_of(groups.skip(1))
    }
}

/// Flattening splits at any group boundary.
pub proof fn lemma_flat_of_split(groups: Seq<Seq<BasisElement>>, k: int)
    requires
        0 <= k <= groups.len(),
    ensures
        flat_of(groups) == flat_of(groups.take(k)) + flat_of(groups.skip(k)),
    decreases k,
{
    if k == 0 {
        assert(groups.take(0) =~= Seq::<Seq<BasisElement>>::empty());
        assert(groups.skip(0) =~= groups);
        assert(flat_of(groups.take(0)) + flat_of(groups.skip(0)) =~= flat_of(groups));
    } else {
        lemma_flat_of_split(groups.skip(1), k - 1);
        assert(groups.take(k)[0] == groups[0]);
        assert(groups.take(k).skip(1) =~= groups.skip(1).take(k - 1));
        assert(groups.skip(k) =~= groups.skip(1).skip(k - 1));
        assert(flat_of(groups.take(k)) == groups[0] + flat_of(groups.skip(1).take(k - 1)));
        assert(flat_of(groups) == groups[0] + flat_of(groups.skip(1)));
        assert(groups[0] + (flat_of(groups.skip(1).take(k - 1)) + flat_of(groups.skip(1).skip(k - 1)))
            =~= (groups[0] + flat_of(groups.skip(1).take(k - 1))) + flat_of(
            groups.skip(1).skip(k - 1),
        ));
    }
}

impl MultiVectorClass {
    /// The blades of the class, across all groups, in declaration order.
    pub open spec fn flat_spec(&self) -> Seq<BasisElement> {
        flat_of(self.grouped_basis@.map_values(|g: Vec<BasisElement>| g@))
    }

    /// The structural signature: the flattened sequence of blade indices.
    pub open spec fn signature_spec(&self) -> Seq<u16> {
        self.flat_spec().map_values(|e: BasisElement| e.index)
    }

    /// The class holds exactly the grade-0 scalar blade and nothing else.
    pub open spec fn is_scalar_spec(&self) -> bool {
        self.flat_spec().len() == 1 && self.flat_spec()[0].index == 0
    }

    /// The blades of the class in declaration order, across all groups.
    pub fn flat_basis(&self) -> (r: Vec<BasisElement>)
        ensures
            r@ == self.flat_spec(),
    {
        let ghost groups = self.grouped_basis@.map_values(|g: Vec<BasisElement>| g@);
        let mut out: Vec<BasisElement> = Vec::new();
        let mut i: usize = 0;
        proof {
            assert(groups.skip(0) =~= groups);
        }
        while i < self.grouped_basis.len()
            invariant
                i <= self.grouped_basis@.len(),
                groups == self.grouped_basis@.map_values(|g: Vec<BasisElement>| g@),
                out@ + flat_of(groups.skip(i as int)) == self.flat_spec(),
            decreases self.grouped_basis@.len() - i,
        {
            let group = &self.grouped_basis[i];
            let mut j: usize = 0;
            proof {
                assert(groups.skip(i as int)[0] == group@);
                assert(groups.skip(i as int).skip(1) =~= groups.skip(i as int + 1));
                assert(flat_of(groups.skip(i as int)) == group@ + flat_of(groups.skip(i as int + 1)));
            }
            let ghost mid = out@;
            while j < group.len()
                invariant
                    j <= group@.len(),
                    out@ == mid + group@.take(j as int),
                decreases group@.len() - j,
            {
                out.push(group[j]);
                proof {
                    assert(mid + group@.take(j as int + 1) =~= (mid + group@.take(j as int)).push(
                        group@[j as int],
                    ));
                }
                j = j + 1;
            }
            proof {
                assert(group@.take(group@.len() as int) =~= group@);
                assert(out@ + flat_of(groups.skip(i as int + 1)) =~= (mid + group@) + flat_of(
                    groups.skip(i as int + 1),
                ));
                assert(mid + (group@ + flat_of(groups.skip(i as int + 1))) =~= (mid + group@)
                    + flat_of(groups.skip(i as int + 1)));
            }
            i = i + 1;
        }
        proof {
            assert(flat_of(groups.skip(i as int)) =~= Seq::<BasisElement>::empty());
            assert(out@ =~= self.flat_spec());
        }
        out
    }

    /// The structural signature used for registry deduplication.
    pub fn signature(&self) -> (r: Vec<u16>)
        ensures
            r@ == self.signature_spec(),
    {
        let flat = self.flat_basis();
        let mut out: Vec<u16> = Vec::new();
        let mut i: usize = 0;
        while i < flat.len()
            invariant
                i <= flat@.len(),
                flat@ == self.flat_spec(),
                out@ == flat@.map_values(|e: BasisElement| e.index).take(i as int),
            decreases flat@.len() - i,
        {
            out.push(flat[i].index);
            proof {
                let mapped = flat@.map_values(|e: BasisElement| e.index);
                assert(mapped.take(i as int + 1) =~= mapped.take(i as int).push(mapped[i as int]));
            }
            i = i + 1;
        }
        proof {
            let mapped = flat@.map_values(|e: BasisElement| e.index);
            assert(mapped.take(mapped.len() as int) =~= mapped);
        }
        out
    }

    /// True iff the class holds exactly the grade-0 scalar blade.
    pub fn is_scalar(&self) -> (r: bool)
        ensures
            r == self.is_scalar_spec(),
    {
        let flat = self.flat_basis();
        flat.len() == 1 && flat[0].index == 0
    }
}

/// Equality of two signatures.
fn sig_eq(a: &Vec<u16>, b: &Vec<u16>) -> (r: bool)
    ensures
        r == (a@ == b@),
{
    if a.len() != b.len() {
        proof {
            assert(a@.len() != b@.len());
        }
        return false;
    }
    let mut i: usize = 0;
    while i < a.len()
        invariant
            i <= a@.len(),
            a@.len() == b@.len(),
            forall|k: int| 0 <= k < i ==> a@[k] == b@[k],
        decreases a@.len() - i,
    {
        if a[i] != b[i] {
            return false;
        }
        i = i + 1;
    }
    proof {
        assert(a@ =~= b@);
    }
    true
}

/// Result of scanning the signature index from the front.
pub open spec fn assoc_find(entries: Seq<(Vec<u16>, usize)>, sig: Seq<u16>) -> Option<usize>
    decreases entries.len(),
{
    if entries.len() == 0 {
        Option::None
    } else if entries[0].0@ == sig {
        Option::Some(entries[0].1)
    } else {
        assoc_find(entries.skip(1), sig)
    }
}

/// Registry of multivector classes, deduplicated by structural signature.
/// The class list is append-only; the signature index keeps one entry per
/// signature, and registering a second class with an identical signature
/// overwrites the entry — last registered wins for lookup.
pub struct MultiVectorClassRegistry {
    pub classes: Vec<MultiVectorClass>,
    pub sig_index: Vec<(Vec<u16>, usize)>,
}

impl MultiVectorClassRegistry {
    /// Index lookup by signature.
    pub open spec fn lookup_spec(&self, sig: Seq<u16>) -> Option<usize> {
        assoc_find(self.sig_index@, sig)
    }

    /// Every index entry points into the class list, keys are unique, each
    /// entry's class carries its key as signature, and every registered
    /// class's signature is indexed — pointing at the last class registered
    /// with it.
    pub open spec fn wf(&self) -> bool {
        (forall|k: int|
            0 <= k < self.sig_index@.len() ==> (#[trigger] self.sig_index@[k]).1
                < self.classes@.len()) && (forall|k1: int, k2: int|
            0 <= k1 < k2 < self.sig_index@.len() ==> (#[trigger] self.sig_index@[k1]).0@ != (
            #[trigger] self.sig_index@[k2]).0@) && (forall|k: int|
            0 <= k < self.sig_index@.len() ==> (#[trigger] self.sig_index@[k]).0@
                == self.classes@[self.sig_index@[k].1 as int].signature_spec()) && (forall|c: int|
            0 <= c < self.classes@.len() ==> ((#[trigger] self.lookup_spec(
                self.classes@[c].signature_spec(),
            )) matches Some(ix) && c <= ix))
    }

    /// An empty registry.
    pub fn new() -> (r: MultiVectorClassRegistry)
        ensures
            r.wf(),
            r.classes@.len() == 0,
            r.sig_index@.len() == 0,
    {
        MultiVectorClassRegistry { classes: Vec::new(), sig_index: Vec::new() }
    }

    /// Appends a class and points the signature index at it, replacing any
    /// previous entry for the same signature.
    pub fn register(&mut self, class: MultiVectorClass)
        requires
            old(self).wf(),
        ensures
            final(self).wf(),
            final(self).classes@ == old(self).classes@.push(class),
            final(self).lookup_spec(class.signature_spec()) == Option::Some(
                old(self).classes@.len() as usize,
            ),
            forall|s: Seq<u16>|
                s != class.signature_spec() ==> #[trigger] final(self).lookup_spec(s) == old(
                    self,
                ).lookup_spec(s),
    {
        let sig = class.signature();
        let target: usize = self.classes.len();
        let mut i: usize = 0;
        let mut found = false;
        while i < self.sig_index.len() && !found
            invariant
                old(self).wf(),
                self == old(self),
                i <= self.sig_index@.len(),
                sig@ == class.signature_spec(),
                !found ==> forall|k: int| 0 <= k < i ==> (#[trigger] self.sig_index@[k]).0@ != sig@,
                found ==> i < self.sig_index@.len() && self.sig_index@[i as int].0@ == sig@,
            decreases self.sig_index@.len() - i + (if found {
                0int
            } else {
                1int
            }),
        {
            if sig_eq(&self.sig_index[i].0, &sig) {
                found = true;
            } else {
                i = i + 1;
            }
        }
        if found {
            let ghost old_entries = self.sig_index@;
            self.sig_index.set(i, (sig, target));
            proof {
                lemma_assoc_find_update(old_entries, self.sig_index@, i as int, sig@, target);
                assert(self.sig_index@ == old(self).sig_index@.update(i as int, (sig, target)));
                assert(assoc_find(self.sig_index@, sig@) == Option::Some(target));
            }
        } else {
            let ghost old_entries = self.sig_index@;
            self.sig_index.push((sig, target));
            proof {
                lemma_assoc_find_append(old_entries, sig@, target);
                assert(self.sig_index@ == old(self).sig_index@.push((sig, target)));
                assert(assoc_find(self.sig_index@, sig@) == Option::Some(target));
                assert forall|s: Seq<u16>| s != sig@ implies assoc_find(self.sig_index@, s)
                    == assoc_find(old_entries, s) by {
                    lemma_assoc_find_append_other(old_entries, sig@, target, s);
                }
            }
        }
        self.classes.push(class);
        proof {
            let oldsig = old(self).sig_index@;
            let news = self.sig_index@;
            assert(self.classes@ == old(self).classes@.push(class));
            // Index entries point into the list and carry their class's
            // signature.
            assert forall|k: int| 0 <= k < news.len() implies ((#[trigger] news[k]).1
                < self.classes@.len() && news[k].0@ == self.classes@[
            news[k].1 as int].signature_spec()) by {
                if found && k == i {
                    assert(news[k] == (sig, target));
                    assert(self.classes@[target as int] == class);
                } else if !found && k == oldsig.len() {
                    assert(news[k] == (sig, target));
                    assert(self.classes@[target as int] == class);
                } else {
                    assert(news[k] == oldsig[k]);
                    assert(oldsig[k].1 < old(self).classes@.len());
                    assert(self.classes@[oldsig[k].1 as int] == old(self).classes@[
                    oldsig[k].1 as int]);
                }
            }
            // Keys stay pairwise distinct.
            assert forall|k1: int, k2: int| 0 <= k1 < k2 < news.len() implies (
            #[trigger] news[k1]).0@ != (#[trigger] news[k2]).0@ by {
                if found {
                    assert(news[k1].0@ == oldsig[k1].0@);
                    assert(news[k2].0@ == oldsig[k2].0@);
                } else {
                    if k2 == oldsig.len() {
                        assert(news[k1].0@ == oldsig[k1].0@);
                        assert(news[k2].0@ == sig@);
                    } else {
                        assert(news[k1].0@ == oldsig[k1].0@);
                        assert(news[k2].0@ == oldsig[k2].0@);
                    }
                }
            }
            // Every registered class's signature is indexed, pointing at the
            // last class registered with it.
            assert forall|c: int| 0 <= c < self.classes@.len() implies ((
            #[trigger] self.lookup_spec(self.classes@[c].signature_spec())) matches Some(ix) && c
                <= ix) by {
                if c < old(self).classes@.len() {
                    assert(self.classes@[c] == old(self).classes@[c]);
                    let s = old(self).classes@[c].signature_spec();
                    assert((old(self).lookup_spec(s) matches Some(ix0) && c <= ix0));
                    if s == sig@ {
                        assert(assoc_find(news, sig@) == Option::Some(target));
                        assert(c < target);
                    } else {
                        assert(assoc_find(news, s) == assoc_find(oldsig, s));
                    }
                } else {
                    assert(self.classes@[c] == class);
                    assert(assoc_find(news, sig@) == Option::Some(target));
                }
            }
        }
    }

    /// Index of the class registered under the given signature.
    pub fn index_of(&self, signature: &Vec<u16>) -> (r: Option<usize>)
        requires
            self.wf(),
        ensures
            r == self.lookup_spec(signature@),
            match r {
                Some(ix) => ix < self.classes@.len(),
                None => true,
            },
    {
        let mut i: usize = 0;
        while i < self.sig_index.len()
            invariant
                self.wf(),
                i <= self.sig_index@.len(),
                forall|k: int| 0 <= k < i ==> (#[trigger] self.sig_index@[k]).0@ != signature@,
            decreases self.sig_index@.len() - i,
        {
            if sig_eq(&self.sig_index[i].0, signature) {
                proof {
                    lemma_assoc_find_hit(self.sig_index@, i as int, signature@);
                }
                return Some(self.sig_index[i].1);
            }
            i = i + 1;
        }
        proof {
            lemma_assoc_find_miss(self.sig_index@, signature@);
        }
        None
    }

    /// The class registered under the given signature, if any: some class is
    /// returned exactly when some registered class carries the signature, and
    /// the one returned is the most recently registered with it.
    pub fn get(&self, signature: &Vec<u16>) -> (r: Option<&MultiVectorClass>)
        requires
            self.wf(),
        ensures
            match r {
                Some(c) => {
                    &&& self.lookup_spec(signature@) is Some
                    &&& *c == self.classes@[self.lookup_spec(signature@).unwrap() as int]
                    &&& exists|ix: int|
                        0 <= ix < self.classes@.len() && *c == self.classes@[ix] && (
                        #[trigger] self.classes@[ix]).signature_spec() == signature@ && (forall|
                            c2: int,
                        |
                            0 <= c2 < self.classes@.len() && (
                            #[trigger] self.classes@[c2]).signature_spec() == signature@ ==> c2
                                <= ix)
                },
                None => {
                    &&& self.lookup_spec(signature@) is None
                    &&& forall|c2: int|
                        0 <= c2 < self.classes@.len() ==> (
                        #[trigger] self.classes@[c2]).signature_spec() != signature@
                },
            },
    {
        match self.index_of(signature) {
            Some(ix) => {
                proof {
                    lemma_assoc_find_characterize(self.sig_index@, signature@);
                    let k = choose|k: int|
                        0 <= k < self.sig_index@.len() && (#[trigger] self.sig_index@[k]).0@
                            == signature@ && self.sig_index@[k].1 == ix;
                    assert(self.classes@[ix as int].signature_spec() == signature@);
                    assert forall|c2: int|
                        0 <= c2 < self.classes@.len() && (
                        #[trigger] self.classes@[c2]).signature_spec() == signature@ implies c2
                        <= ix as int by {
                        assert((self.lookup_spec(self.classes@[c2].signature_spec())
                            matches Some(ix0) && c2 <= ix0));
                    }
                }
                Some(&self.classes[ix])
            },
            None => {
                proof {
                    assert forall|c2: int| 0 <= c2 < self.classes@.len() implies (
                    #[trigger] self.classes@[c2]).signature_spec() != signature@ by {
                        assert((self.lookup_spec(self.classes@[c2].signature_spec())
                            matches Some(ix0) && c2 <= ix0));
                    }
                }
                None
            },
        }
    }
}

/// A successful scan names an entry; a failed scan rules every entry out.
proof fn lemma_assoc_find_characterize(entries: Seq<(Vec<u16>, usize)>, s: Seq<u16>)
    ensures
        match assoc_find(entries, s) {
            Some(v) => exists|k: int|
                0 <= k < entries.len() && (#[trigger] entries[k]).0@ == s && entries[k].1 == v,
            None => forall|k: int| 0 <= k < entries.len() ==> (#[trigger] entries[k]).0@ != s,
        },
    decreases entries.len(),
{
    if entries.len() == 0 {
    } else if entries[0].0@ == s {
        assert(entries[0].0@ == s && entries[0].1 == assoc_find(entries, s)->Some_0);
    } else {
        lemma_assoc_find_characterize(entries.skip(1), s);
        match assoc_find(entries, s) {
            Some(v) => {
                let k = choose|k: int|
                    0 <= k < entries.skip(1).len() && (#[trigger] entries.skip(1)[k]).0@ == s
                        && entries.skip(1)[k].1 == v;
                assert(entries[k + 1].0@ == s && entries[k + 1].1 == v);
            },
            None => {
                assert forall|k: int| 0 <= k < entries.len() implies (#[trigger] entries[k]).0@
                    != s by {
                    if k > 0 {
                        assert(entries.skip(1)[k - 1].0@ != s);
                    }
                }
            },
        }
    }
}

/// Scanning stops at a hit whose prefix held no other hit.
proof fn lemma_assoc_find_hit(entries: Seq<(Vec<u16>, usize)>, i: int, sig: Seq<u16>)
    requires
        0 <= i < entries.len(),
        entries[i].0@ == sig,
        forall|k: int| 0 <= k < i ==> (#[trigger] entries[k]).0@ != sig,
    ensures
        assoc_find(entries, sig) == Option::Some(entries[i].1),
    decreases i,
{
    if i > 0 {
        lemma_assoc_find_hit(entries.skip(1), i - 1, sig);
        assert(forall|k: int|
            0 <= k < i - 1 ==> (#[trigger] entries.skip(1)[k]).0@ == entries[k + 1].0@);
    }
}

/// Scanning the whole list without a hit yields nothing.
proof fn lemma_assoc_find_miss(entries: Seq<(Vec<u16>, usize)>, sig: Seq<u16>)
    requires
        forall|k: int| 0 <= k < entries.len() ==> (#[trigger] entries[k]).0@ != sig,
    ensures
        assoc_find(entries, sig) == Option::None::<usize>,
    decreases entries.len(),
{
    if entries.len() > 0 {
        lemma_assoc_find_miss(entries.skip(1), sig);
    }
}

/// Replacing the entry that holds a key redirects that key and nothing else.
proof fn lemma_assoc_find_update(
    old_entries: Seq<(Vec<u16>, usize)>,
    new_entries: Seq<(Vec<u16>, usize)>,
    i: int,
    sig: Seq<u16>,
    target: usize,
)
    requires
        0 <= i < old_entries.len(),
        new_entries == old_entries.update(i, (new_entries[i].0, target)),
        new_entries[i].0@ == sig,
        old_entries[i].0@ == sig,
        forall|k: int| 0 <= k < i ==> (#[trigger] old_entries[k]).0@ != sig,
        forall|k1: int, k2: int|
            0 <= k1 < k2 < old_entries.len() ==> (#[trigger] old_entries[k1]).0@ != (
            #[trigger] old_entries[k2]).0@,
    ensures
        assoc_find(new_entries, sig) == Option::Some(target),
        forall|s: Seq<u16>|
            s != sig ==> #[trigger] assoc_find(new_entries, s) == assoc_find(old_entries, s),
    decreases i,
{
    assert(new_entries.len() == old_entries.len());
    if i == 0 {
        assert forall|s: Seq<u16>| s != sig implies #[trigger] assoc_find(new_entries, s)
            == assoc_find(old_entries, s) by {
            assert(new_entries.skip(1) =~= old_entries.skip(1));
        }
    } else {
        assert(new_entries.skip(1) =~= old_entries.skip(1).update(
            i - 1,
            (new_entries[i].0, target),
        ));
        lemma_assoc_find_update(old_entries.skip(1), new_entries.skip(1), i - 1, sig, target);
        assert(new_entries[0] == old_entries[0]);
        assert(new_entries[0].0@ != sig);
        assert(assoc_find(new_entries, sig) == assoc_find(new_entries.skip(1), sig));
        assert forall|s: Seq<u16>| s != sig implies #[trigger] assoc_find(new_entries, s)
            == assoc_find(old_entries, s) by {
            assert(assoc_find(new_entries.skip(1), s) == assoc_find(old_entries.skip(1), s));
            if new_entries[0].0@ == s {
            } else {
                assert(assoc_find(new_entries, s) == assoc_find(new_entries.skip(1), s));
                assert(assoc_find(old_entries, s) == assoc_find(old_entries.skip(1), s));
            }
        }
    }
}

/// Appending a fresh key makes it findable.
proof fn lemma_assoc_find_append(entries: Seq<(Vec<u16>, usize)>, sig: Seq<u16>, target: usize)
    requires
        forall|k: int| 0 <= k < entries.len() ==> (#[trigger] entries[k]).0@ != sig,
    ensures
        forall|e: (Vec<u16>, usize)|
            e.0@ == sig && e.1 == target ==> assoc_find(#[trigger] entries.push(e), sig)
                == Option::Some(target),
    decreases entries.len(),
{
    assert forall|e: (Vec<u16>, usize)| e.0@ == sig && e.1 == target implies assoc_find(
        #[trigger] entries.push(e),
        sig,
    ) == Option::Some(target) by {
        if entries.len() == 0 {
            assert(entries.push(e)[0] == e);
        } else {
            lemma_assoc_find_append(entries.skip(1), sig, target);
            assert(entries.push(e).skip(1) =~= entries.skip(1).push(e));
        }
    }
}

/// Appending an entry does not change the lookup of other keys.
proof fn lemma_assoc_find_append_other(
    entries: Seq<(Vec<u16>, usize)>,
    sig: Seq<u16>,
    target: usize,
    s: Seq<u16>,
)
    requires
        s != sig,
    ensures
        forall|e: (Vec<u16>, usize)|
            e.0@ == sig && e.1 == target ==> assoc_find(#[trigger] entries.push(e), s)
                == assoc_find(entries, s),
    decreases entries.len(),
{
    assert forall|e: (Vec<u16>, usize)| e.0@ == sig && e.1 == target implies assoc_find(
        #[trigger] entries.push(e),
        s,
    ) == assoc_find(entries, s) by {
        if entries.len() == 0 {
            assert(entries.push(e)[0] == e);
            assert(entries.push(e).skip(1) =~= entries);
        } else {
            lemma_assoc_find_append_other(entries.skip(1), sig, target, s);
            assert(entries.push(e).skip(1) =~= entries.skip(1).push(e));
            assert(entries.push(e)[0] == entries[0]);
        }
    }
}

} // verus!
