//! The data a listing renders: entries, their metadata, and the
//! per-listing cache of resolved owner names.

use vstd::prelude::*;

use crate::digits::{dec_digits, format_u64};
use crate::style::Style;

verus! {

/// One directory entry as the renderer sees it: its name bytes and the
/// display style assigned by the entry provider.
pub struct DisplayEntry {
    pub name: Vec<u8>,
    pub style: Style,
}

/// Raw metadata of one entry, as the metadata provider reports it.
pub struct EntryMeta {
    pub mode: u32,
    pub size: u64,
    pub uid: u32,
    pub mtime: i64,
}

/// First name recorded for `uid`, or empty when none is.
pub open spec fn lookup_name(t: Seq<(u32, Seq<u8>)>, uid: u32) -> Seq<u8>
    decreases t.len(),
{
    if t.len() == 0 {
        Seq::<u8>::empty()
    } else if t[0].0 == uid {
        t[0].1
    } else {
        lookup_name(t.drop_first(), uid)
    }
}

/// Whether a name is recorded for `uid`.
pub open spec fn has_owner(t: Seq<(u32, Seq<u8>)>, uid: u32) -> bool
    decreases t.len(),
{
    if t.len() == 0 {
        false
    } else if t[0].0 == uid {
        true
    } else {
        has_owner(t.drop_first(), uid)
    }
}

/// Looking up ignores a prefix in which the id does not occur.
proof fn lemma_lookup_skip(t: Seq<(u32, Seq<u8>)>, uid: u32, i: int)
    requires
        0 <= i <= t.len(),
        forall|j: int| 0 <= j < i ==> (#[trigger] t[j]).0 != uid,
    ensures
        lookup_name(t, uid) == lookup_name(t.skip(i), uid),
        has_owner(t, uid) == has_owner(t.skip(i), uid),
    decreases i,
{
    if i > 0 {
        assert(t[0].0 != uid);
        lemma_lookup_skip(t.drop_first(), uid, i - 1);
        assert(t.drop_first().skip(i - 1) =~= t.skip(i));
    } else {
        assert(t.skip(0) =~= t);
    }
}

/// A recorded name is no longer than the recorded maximum.
proof fn lemma_lookup_len(t: Seq<(u32, Seq<u8>)>, uid: u32, longest: nat)
    requires
        forall|i: int| 0 <= i < t.len() ==> (#[trigger] t[i]).1.len() <= longest,
    ensures
        lookup_name(t, uid).len() <= longest,
    decreases t.len(),
{
    if t.len() > 0 && t[0].0 != uid {
        lemma_lookup_len(t.drop_first(), uid, longest);
    }
}

/// The name recorded for an owner id: the resolved name when there is
/// one, else the decimal digits of the id.
pub open spec fn owner_record(uid: u32, resolved: Option<Vec<u8>>) -> Seq<u8> {
    match resolved {
        Option::Some(n) => n@,
        Option::None => dec_digits(uid as nat),
    }
}

/// Per-listing cache of resolved owner names, keyed by owner id, tracking
/// the longest recorded name for column alignment.
pub struct OwnerNames {
    entries: Vec<(u32, Vec<u8>)>,
    longest: usize,
}

impl OwnerNames {
    /// The recorded (id, name) pairs in insertion order.
    pub closed spec fn table(self) -> Seq<(u32, Seq<u8>)> {
        self.entries@.map_values(|p: (u32, Vec<u8>)| (p.0, p.1@))
    }

    /// The length of the longest recorded name (0 when empty).
    pub closed spec fn longest_len(self) -> nat {
        self.longest as nat
    }

    /// Every recorded name fits in the recorded maximum.
    pub open spec fn wf(self) -> bool {
        forall|i: int|
            0 <= i < self.table().len() ==> (#[trigger] self.table()[i]).1.len()
                <= self.longest_len()
    }

    /// An empty cache.
    pub fn new() -> (r: Self)
        ensures
            r.wf(),
            r.table() == Seq::<(u32, Seq<u8>)>::empty(),
            r.longest_len() == 0,
    {
        let r = OwnerNames { entries: Vec::new(), longest: 0 };
        proof {
            assert(r.table() =~= Seq::<(u32, Seq<u8>)>::empty());
        }
        r
    }

    /// Whether a name is already recorded for `uid`.
    pub fn contains(&self, uid: u32) -> (r: bool)
        ensures
            r == has_owner(self.table(), uid),
    {
        let n = self.entries.len();
        let mut i: usize = 0;
        while i < n
            invariant
                i <= n,
                n == self.entries@.len(),
                forall|j: int| 0 <= j < i ==> (#[trigger] self.table()[j]).0 != uid,
            decreases n - i,
        {
            if self.entries[i].0 == uid {
                proof {
                    lemma_lookup_skip(self.table(), uid, i as int);
                    assert(self.table().skip(i as int)[0] == self.table()[i as int]);
                }
                return true;
            }
            i = i + 1;
        }
        proof {
            lemma_lookup_skip(self.table(), uid, n as int);
        }
        false
    }

    /// The name recorded for `uid`, or empty bytes when none is. The
    /// result never exceeds `longest_len` on a well-formed cache.
    pub fn lookup(&self, uid: u32) -> (r: Vec<u8>)
        requires
            self.wf(),
        ensures
            r@ == lookup_name(self.table(), uid),
            r@.len() <= self.longest_len(),
    {
        proof {
            lemma_lookup_len(self.table(), uid, self.longest_len());
        }
        let n = self.entries.len();
        let mut i: usize = 0;
        while i < n
            invariant
                i <= n,
                n == self.entries@.len(),
                lookup_name(self.table(), uid).len() <= self.longest_len(),
                forall|j: int| 0 <= j < i ==> (#[trigger] self.table()[j]).0 != uid,
            decreases n - i,
        {
            if self.entries[i].0 == uid {
                proof {
                    lemma_lookup_skip(self.table(), uid, i as int);
                    assert(self.table().skip(i as int)[0] == self.table()[i as int]);
                    assert(lookup_name(self.table().skip(i as int), uid) == self.table()[
                        i as int
                    ].1);
                }
                return vstd::slice::slice_to_vec(self.entries[i].1.as_slice());
            }
            i = i + 1;
        }
        proof {
            lemma_lookup_skip(self.table(), uid, n as int);
        }
        Vec::new()
    }

    /// Record a name for `uid` unless one already is recorded: the
    /// resolved name when given, else the decimal digits of the id; the
    /// longest-name length grows accordingly.
    pub fn add(&mut self, uid: u32, resolved: Option<Vec<u8>>)
        requires
            old(self).wf(),
        ensures
            final(self).wf(),
            has_owner(old(self).table(), uid) ==> *final(self) == *old(self),
            !has_owner(old(self).table(), uid) ==> {
                &&& final(self).table() == old(self).table().push((uid, owner_record(uid, resolved)))
                &&& final(self).longest_len() == if owner_record(uid, resolved).len() > old(
                    self,
                ).longest_len() {
                    owner_record(uid, resolved).len()
                } else {
                    old(self).longest_len()
                }
            },
    {
        if self.contains(uid) {
            return ;
        }
        let name: Vec<u8> = match resolved {
            Option::Some(n) => n,
            Option::None => format_u64(uid as u64),
        };
        if name.len() > self.longest {
            self.longest = name.len();
        }
        let ghost pre = self.table();
        self.entries.push((uid, name));
        proof {
            assert(self.table() =~= pre.push((uid, owner_record(uid, resolved))));
        }
    }

    /// The length of the longest recorded name.
    pub fn longest(&self) -> (r: usize)
        ensures
            r as nat == self.longest_len(),
    {
        self.longest
    }
}

} // verus!
