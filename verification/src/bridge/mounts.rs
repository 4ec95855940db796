//! Active mounts.

use vstd::prelude::*;

use crate::protocol::{FileKind, StatResult};
use crate::text::texts;

verus! {

/// The texts of `s` other than `t`.
pub open spec fn without(s: Seq<Seq<char>>, t: Seq<char>) -> Seq<Seq<char>>
    decreases s.len(),
{
    if s.len() == 0 {
        s
    } else {
        let rest = without(s.drop_last(), t);
        if s.last() == t {
            rest
        } else {
            rest.push(s.last())
        }
    }
}

/// Takes `t` out of a list; says whether it was there.
fn take_out(list: &mut Vec<String>, t: &str) -> (res: bool)
    ensures
        texts(final(list)@) == without(texts(old(list)@), t@),
        res == texts(old(list)@).contains(t@),
{
    let ghost all = texts(list@);
    let mut kept: Vec<String> = Vec::new();
    let mut found = false;
    let mut i: usize = 0;
    assert(all.take(0) =~= Seq::<Seq<char>>::empty());
    assert(texts(kept@) =~= without(all.take(0), t@));
    while i < list.len()
        invariant
            i <= list@.len(),
            all == texts(list@),
            texts(kept@) == without(all.take(i as int), t@),
            found == all.take(i as int).contains(t@),
        decreases list@.len() - i,
    {
        let ghost before = kept@;
        proof {
            assert(all.take(i + 1).drop_last() =~= all.take(i as int));
            assert(all[i as int] == list@[i as int]@);
            let front = all.take(i as int);
            let upto = all.take(i + 1);
            if front.contains(t@) {
                let k = choose|k: int| 0 <= k < front.len() && front[k] == t@;
                assert(upto[k] == t@);
            }
            if upto.contains(t@) && !front.contains(t@) {
                let k = choose|k: int| 0 <= k < upto.len() && upto[k] == t@;
                if k < i {
                    assert(front[k] == t@);
                }
            }
            assert(upto[i as int] == all[i as int]);
        }
        if *list[i].as_str() == *t {
            found = true;
        } else {
            kept.push(list[i].clone());
            assert(texts(kept@) =~= texts(before).push(all[i as int]));
        }
        i += 1;
    }
    assert(all.take(i as int) =~= all);
    *list = kept;
    found
}

/// What is left without a text holds all others, and not that one.
pub proof fn lemma_without(s: Seq<Seq<char>>, t: Seq<char>)
    ensures
        !without(s, t).contains(t),
        forall|x: Seq<char>| x != t ==> (#[trigger] without(s, t).contains(x) <==> s.contains(x)),
    decreases s.len(),
{
    if s.len() > 0 {
        let front = s.drop_last();
        lemma_without(front, t);
        let rest = without(front, t);
        let all = without(s, t);
        assert forall|x: Seq<char>| #[trigger] all.contains(x) <==> x != t && s.contains(x) by {
            if all.contains(x) {
                let k = choose|k: int| 0 <= k < all.len() && all[k] == x;
                if k < rest.len() {
                    assert(rest[k] == x);
                    assert(rest.contains(x));
                    let j = choose|j: int| 0 <= j < front.len() && front[j] == x;
                    assert(s[j] == x);
                } else {
                    assert(s[s.len() - 1] == x);
                }
            }
            if x != t && s.contains(x) {
                let j = choose|j: int| 0 <= j < s.len() && s[j] == x;
                if j < front.len() {
                    assert(front[j] == x);
                    assert(rest.contains(x));
                    let k = choose|k: int| 0 <= k < rest.len() && rest[k] == x;
                    assert(all[k] == x);
                } else {
                    assert(all[rest.len() as int] == x);
                }
            }
        }
    }
}

/// Manages active mounts by their mount points.
#[derive(Debug)]
pub struct MountManager {
    mounts: Vec<String>,
    /// Mount points to unmount when the process ends.
    active_paths: Vec<String>,
}

/// Active mounts, as a mathematical value.
#[verifier::ext_equal]
pub struct MountsView {
    pub mounts: Seq<Seq<char>>,
    pub active_paths: Seq<Seq<char>>,
}

impl View for MountManager {
    type V = MountsView;

    closed spec fn view(&self) -> MountsView {
        MountsView { mounts: texts(self.mounts@), active_paths: texts(self.active_paths@) }
    }
}

impl MountManager {
    /// Nothing is mounted.
    pub fn new() -> (res: Self)
        ensures
            res@.mounts == Seq::<Seq<char>>::empty(),
            res@.active_paths == Seq::<Seq<char>>::empty(),
    {
        let res = MountManager { mounts: Vec::new(), active_paths: Vec::new() };
        assert(res@.mounts =~= Seq::<Seq<char>>::empty());
        assert(res@.active_paths =~= Seq::<Seq<char>>::empty());
        res
    }

    /// Something is about to be mounted at `mount_point`: says whether an
    /// earlier session there has to be ended first. Ended later, it would
    /// unmount the new one.
    pub fn retire(&mut self, mount_point: &str) -> (res: bool)
        ensures
            res == old(self)@.mounts.contains(mount_point@),
            final(self)@ == (MountsView {
                mounts: without(old(self)@.mounts, mount_point@),
                ..old(self)@
            }),
    {
        take_out(&mut self.mounts, mount_point)
    }

    /// A mount is live at `mount_point`.
    pub fn mount(&mut self, mount_point: &str)
        ensures
            final(self)@.mounts == without(old(self)@.mounts, mount_point@).push(mount_point@),
            final(self)@.active_paths == without(old(self)@.active_paths, mount_point@).push(
                mount_point@,
            ),
    {
        let ghost before = self@;
        take_out(&mut self.mounts, mount_point);
        let ghost rest = texts(self.mounts@);
        self.mounts.push(mount_point.to_owned());
        assert(texts(self.mounts@) =~= rest.push(mount_point@));
        take_out(&mut self.active_paths, mount_point);
        let ghost others = texts(self.active_paths@);
        self.active_paths.push(mount_point.to_owned());
        assert(texts(self.active_paths@) =~= others.push(mount_point@));
    }

    /// The mount at `mount_point` is to be ended, where there is one.
    pub fn unmount(&mut self, mount_point: &str) -> (res: Result<(), String>)
        ensures
            match res {
                Ok(_) => {
                    &&& old(self)@.mounts.contains(mount_point@)
                    &&& final(self)@ == (MountsView {
                        mounts: without(old(self)@.mounts, mount_point@),
                        active_paths: without(old(self)@.active_paths, mount_point@),
                    })
                },
                Err(e) => {
                    &&& !old(self)@.mounts.contains(mount_point@)
                    &&& e@ == "no mount at "@ + mount_point@
                    &&& final(self)@ == old(self)@
                },
            },
    {
        let ghost before = self@;
        if !take_out(&mut self.mounts, mount_point) {
            proof {
                lemma_absent(before.mounts, mount_point@);
            }
            assert(self@ =~= before);
            let mut message = "no mount at ".to_owned();
            message.append(mount_point);
            return Err(message);
        }
        take_out(&mut self.active_paths, mount_point);
        Ok(())
    }

    /// The mount points.
    pub fn list(&self) -> (res: Vec<String>)
        ensures
            texts(res@) == self@.mounts,
    {
        copy_texts(&self.mounts)
    }

    /// The mount points to unmount when the process ends.
    pub fn leftovers(&self) -> (res: Vec<String>)
        ensures
            texts(res@) == self@.active_paths,
    {
        copy_texts(&self.active_paths)
    }
}

fn copy_texts(list: &Vec<String>) -> (res: Vec<String>)
    ensures
        texts(res@) == texts(list@),
{
    let mut out: Vec<String> = Vec::new();
    let mut i: usize = 0;
    while i < list.len()
        invariant
            i <= list@.len(),
            out@.len() == i,
            forall|k: int| 0 <= k < i ==> (#[trigger] out@[k])@ == list@[k]@,
        decreases list@.len() - i,
    {
        out.push(list[i].clone());
        i += 1;
    }
    assert(texts(out@) =~= texts(list@));
    out
}

/// Where a text does not stand, nothing is taken out.
proof fn lemma_absent(s: Seq<Seq<char>>, t: Seq<char>)
    requires
        !s.contains(t),
    ensures
        without(s, t) == s,
    decreases s.len(),
{
    if s.len() > 0 {
        let front = s.drop_last();
        if front.contains(t) {
            let k = choose|k: int| 0 <= k < front.len() && front[k] == t;
            assert(s[k] == t);
        }
        lemma_absent(front, t);
        assert(s[s.len() - 1] != t);
        assert(front.push(s.last()) =~= s);
    }
}

/// Each mount point has one mount at most: mounting again replaces it, and
/// unmounting ends it.
pub proof fn lemma_one_mount_for_each_point(s: Seq<Seq<char>>, t: Seq<char>)
    ensures
        without(s, t).push(t).contains(t),
        without(without(s, t).push(t), t) == without(s, t),
        forall|x: Seq<char>|
            x != t ==> (#[trigger] without(s, t).push(t).contains(x) <==> s.contains(x)),
{
    let one = without(s, t).push(t);
    lemma_without(s, t);
    assert(one[one.len() - 1] == t);
    assert(one.drop_last() =~= without(s, t));
    lemma_absent(without(s, t), t);
    assert forall|x: Seq<char>| x != t implies (#[trigger] one.contains(x) <==> s.contains(x)) by {
        if one.contains(x) {
            let k = choose|k: int| 0 <= k < one.len() && one[k] == x;
            assert(without(s, t)[k] == x);
            assert(without(s, t).contains(x));
        }
        if s.contains(x) {
            assert(without(s, t).contains(x));
            let k = choose|k: int| 0 <= k < without(s, t).len() && without(s, t)[k] == x;
            assert(one[k] == x);
        }
    }
}

/// The mounts are listed in the order in which they came: taking one out keeps the
/// others in their order.
pub proof fn lemma_mounts_keep_their_order(s: Seq<Seq<char>>, u: Seq<Seq<char>>, t: Seq<char>)
    ensures
        without(s + u, t) == without(s, t) + without(u, t),
        without(seq![t], t) == Seq::<Seq<char>>::empty(),
        forall|x: Seq<char>| x != t ==> #[trigger] without(seq![x], t) == seq![x],
    decreases u.len(),
{
    assert forall|x: Seq<char>| #[trigger] without(seq![x], t) == if x != t {
        seq![x]
    } else {
        Seq::empty()
    } by {
        assert(seq![x].drop_last() =~= Seq::<Seq<char>>::empty());
        assert(without(seq![x].drop_last(), t) =~= Seq::<Seq<char>>::empty());
        assert(without(seq![x], t) =~= if x != t {
            seq![x]
        } else {
            Seq::empty()
        });
    }
    if u.len() == 0 {
        assert(s + u =~= s);
        assert(without(s, t) + without(u, t) =~= without(s, t));
    } else {
        assert((s + u).drop_last() =~= s + u.drop_last());
        lemma_mounts_keep_their_order(s, u.drop_last(), t);
        assert(without(s + u, t) =~= without(s, t) + without(u, t));
    }
}

/// Only a directory can be mounted.
pub fn check_target(remote_dir: &str, stat: &StatResult) -> (res: Result<(), String>)
    ensures
        match res {
            Ok(_) => stat.kind == FileKind::Dir,
            Err(e) => stat.kind != FileKind::Dir && e@ == remote_dir@ + " is not a directory"@,
        },
{
    match stat.kind {
        FileKind::Dir => Ok(()),
        _ => {
            let mut message = remote_dir.to_owned();
            message.append(" is not a directory");
            Err(message)
        },
    }
}

} // verus!
