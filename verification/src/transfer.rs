//! Slot reassignment: rewriting button-to-action bindings from one device
//! identifier to another across every profile. A `slot_id` splits at its
//! first underscore into `(device, button)`; one with no underscore never
//! matches a device. Assignments bound to the target device are removed,
//! assignments bound to the source device are re-bound to the target, and
//! all other assignments survive unchanged. The result lists survivors
//! first, in their original relative order, then the re-bound assignments
//! in the order their sources appeared.

use vstd::prelude::*;

use crate::schema::{Assignment, AssignmentV, Profile, ProfileV, Settings, SettingsV, vm, pvm};

verus! {

/// The index of the first underscore of `s`, if any.
pub open spec fn first_underscore(s: Seq<char>) -> Option<int>
    decreases s.len(),
{
    if s.len() == 0 {
        None
    } else if s[0] == '_' {
        Some(0)
    } else {
        match first_underscore(s.drop_first()) {
            Some(i) => Some(i + 1),
            None => None,
        }
    }
}

/// The device part of a slot identifier: what stands before the first
/// underscore, or nothing when there is none.
pub open spec fn slot_device(s: Seq<char>) -> Option<Seq<char>> {
    match first_underscore(s) {
        Some(i) => Some(s.take(i)),
        None => None,
    }
}

/// The button part of a slot identifier: what stands after the first
/// underscore.
pub open spec fn slot_button(s: Seq<char>) -> Seq<char> {
    match first_underscore(s) {
        Some(i) => s.skip(i + 1),
        None => Seq::empty(),
    }
}

/// The assignment is bound to the device `dev`.
pub open spec fn bound_to(a: AssignmentV, dev: Seq<char>) -> bool {
    slot_device(a.slot_id) == Some(dev)
}

/// The assignment is bound to neither device, so the transfer leaves it
/// alone.
pub open spec fn survives(a: AssignmentV, from: Seq<char>, to: Seq<char>) -> bool {
    !bound_to(a, from) && !bound_to(a, to)
}

/// The assignment re-bound to `to`: same button, same remainder.
pub open spec fn rekey(a: AssignmentV, to: Seq<char>) -> AssignmentV {
    AssignmentV { slot_id: to + seq!['_'] + slot_button(a.slot_id), rest: a.rest }
}

/// The two halves of a transfer: the surviving assignments, in order, and
/// the re-bound ones, in the order their sources appeared.
pub open spec fn transfer_split(s: Seq<AssignmentV>, from: Seq<char>, to: Seq<char>) -> (
    Seq<AssignmentV>,
    Seq<AssignmentV>,
)
    decreases s.len(),
{
    if s.len() == 0 {
        (Seq::empty(), Seq::empty())
    } else {
        let t = transfer_split(s.drop_first(), from, to);
        if bound_to(s[0], from) {
            (t.0, seq![rekey(s[0], to)] + t.1)
        } else if bound_to(s[0], to) {
            (t.0, t.1)
        } else {
            (seq![s[0]] + t.0, t.1)
        }
    }
}

/// What a transfer does to one assignment list.
pub open spec fn transfer_list(s: Seq<AssignmentV>, from: Seq<char>, to: Seq<char>) -> Seq<
    AssignmentV,
> {
    transfer_split(s, from, to).0 + transfer_split(s, from, to).1
}

/// What a transfer does to one profile: only its assignment list changes.
pub open spec fn transfer_profile(p: ProfileV, from: Seq<char>, to: Seq<char>) -> ProfileV {
    ProfileV { assignments: transfer_list(p.assignments, from, to), rest: p.rest }
}

/// What a transfer does to the document: the same rewrite in every profile,
/// nothing else touched.
pub open spec fn transfer_settings(s: SettingsV, from: Seq<char>, to: Seq<char>) -> SettingsV {
    SettingsV {
        profile_keys: s.profile_keys,
        profiles: Seq::new(
            s.profiles.len(),
            |i: int| (s.profiles[i].0, transfer_profile(s.profiles[i].1, from, to)),
        ),
        ever_connected_devices: s.ever_connected_devices,
        migration_report: s.migration_report,
        rest: s.rest,
    }
}

pub proof fn lemma_first_underscore_at(s: Seq<char>, i: int)
    requires
        0 <= i < s.len(),
        s[i] == '_',
        forall|j: int| 0 <= j < i ==> s[j] != '_',
    ensures
        first_underscore(s) == Some(i),
    decreases s.len(),
{
    if i > 0 {
        lemma_first_underscore_at(s.drop_first(), i - 1);
    }
}

pub proof fn lemma_first_underscore_none(s: Seq<char>)
    requires
        forall|j: int| 0 <= j < s.len() ==> s[j] != '_',
    ensures
        first_underscore(s) is None,
    decreases s.len(),
{
    if s.len() > 0 {
        lemma_first_underscore_none(s.drop_first());
    }
}

/// Splits a slot identifier at its first underscore into the device part
/// and the button part; hands back nothing when it has no underscore.
pub fn split_slot(s: &str) -> (r: Option<(String, String)>)
    ensures
        (match r {
            Some(parts) => first_underscore(s@) is Some && parts.0@ == s@.take(
                first_underscore(s@)->Some_0,
            ) && parts.1@ == s@.skip(first_underscore(s@)->Some_0 + 1),
            None => first_underscore(s@) is None,
        }),
{
    let n = s.unicode_len();
    let mut i: usize = 0;
    while i < n
        invariant
            n == s@.len(),
            i <= n,
            forall|j: int| 0 <= j < i ==> s@[j] != '_',
        decreases n - i,
    {
        if s.get_char(i) == '_' {
            proof {
                lemma_first_underscore_at(s@, i as int);
            }
            let device = s.substring_char(0, i).to_owned();
            let button = s.substring_char(i + 1, n).to_owned();
            proof {
                assert(device@ =~= s@.take(i as int));
                assert(button@ =~= s@.skip(i as int + 1));
            }
            return Some((device, button));
        }
        i = i + 1;
    }
    proof {
        lemma_first_underscore_none(s@);
    }
    None
}

/// Transfers one assignment list from `from` to `to`: survivors first, then
/// the re-bound assignments.
#[verifier::loop_isolation(false)]
pub fn transfer_assignment_vec(list: Vec<Assignment>, from: &String, to: &String) -> (r: Vec<
    Assignment,
>)
    ensures
        vm(r@) == transfer_list(vm(list@), from@, to@),
{
    let ghost orig = vm(list@);
    let ghost fv = from@;
    let ghost tv = to@;
    let mut list = list;
    let mut keep: Vec<Assignment> = Vec::new();
    let mut fresh: Vec<Assignment> = Vec::new();
    proof {
        assert(vm(list@) =~= orig);
        assert(vm(keep@) =~= Seq::<AssignmentV>::empty());
        assert(vm(fresh@) =~= Seq::<AssignmentV>::empty());
    }
    while list.len() != 0
        invariant
            transfer_split(orig, fv, tv).0 =~= vm(keep@) + transfer_split(vm(list@), fv, tv).0,
            transfer_split(orig, fv, tv).1 =~= vm(fresh@) + transfer_split(vm(list@), fv, tv).1,
        decreases list@.len(),
    {
        let ghost s = vm(list@);
        let ghost kdone = vm(keep@);
        let ghost fdone = vm(fresh@);
        let ghost lh = list@;
        let a = list.remove(0);
        proof {
            assert(vm(lh)[0] == lh[0]@);
            assert(a@ == s[0]);
            assert forall|j: int| 0 <= j < list@.len() implies vm(list@)[j]
                == s.drop_first()[j] by {
                assert(list@[j] == lh[j + 1]);
                assert(vm(lh)[j + 1] == lh[j + 1]@);
            }
            assert(vm(list@) =~= s.drop_first());
        }
        match split_slot(a.slot_id.as_str()) {
            None => {
                proof {
                    assert(!bound_to(s[0], fv) && !bound_to(s[0], tv));
                }
                keep.push(a);
                proof {
                    assert(vm(keep@) =~= kdone.push(s[0]));
                    assert(kdone + (seq![s[0]] + transfer_split(s.drop_first(), fv, tv).0)
                        =~= kdone.push(s[0]) + transfer_split(s.drop_first(), fv, tv).0);
                }
            },
            Some(parts) => {
                let (device, button) = parts;
                if device == *from {
                    let mut new_slot = to.clone();
                    new_slot.append("_");
                    new_slot.append(button.as_str());
                    proof {
                        reveal_strlit("_");
                        assert("_"@ =~= seq!['_']);
                        assert(new_slot@ == tv + seq!['_'] + slot_button(s[0].slot_id));
                        assert(bound_to(s[0], fv));
                    }
                    let b = Assignment { slot_id: new_slot, rest: a.rest };
                    proof {
                        assert(b@ == rekey(s[0], tv));
                    }
                    fresh.push(b);
                    proof {
                        assert(vm(fresh@) =~= fdone.push(rekey(s[0], tv)));
                        assert(fdone + (seq![rekey(s[0], tv)] + transfer_split(
                            s.drop_first(),
                            fv,
                            tv,
                        ).1) =~= fdone.push(rekey(s[0], tv)) + transfer_split(
                            s.drop_first(),
                            fv,
                            tv,
                        ).1);
                    }
                } else if device == *to {
                    proof {
                        assert(!bound_to(s[0], fv) && bound_to(s[0], tv));
                    }
                } else {
                    proof {
                        assert(!bound_to(s[0], fv) && !bound_to(s[0], tv));
                    }
                    keep.push(a);
                    proof {
                        assert(vm(keep@) =~= kdone.push(s[0]));
                        assert(kdone + (seq![s[0]] + transfer_split(s.drop_first(), fv, tv).0)
                            =~= kdone.push(s[0]) + transfer_split(s.drop_first(), fv, tv).0);
                    }
                }
            },
        }
    }
    let ghost kfin = vm(keep@);
    let ghost ffin = vm(fresh@);
    keep.append(&mut fresh);
    proof {
        assert(vm(list@).len() == 0);
        assert(transfer_split(vm(list@), fv, tv).0 =~= Seq::<AssignmentV>::empty());
        assert(transfer_split(vm(list@), fv, tv).1 =~= Seq::<AssignmentV>::empty());
        assert(kfin + Seq::<AssignmentV>::empty() =~= kfin);
        assert(ffin + Seq::<AssignmentV>::empty() =~= ffin);
        assert forall|j: int| 0 <= j < keep@.len() implies vm(keep@)[j] == (kfin + ffin)[j] by {
            if j < kfin.len() {
            } else {
            }
        }
        assert(vm(keep@) =~= kfin + ffin);
    }
    keep
}

impl Settings {
    /// Applies the same transfer to every profile of the document; nothing
    /// else changes.
    #[verifier::loop_isolation(false)]
    pub fn transfer_assignments(self, from: &String, to: &String) -> (r: Settings)
        ensures
            r@ == transfer_settings(self@, from@, to@),
    {
        let ghost sv = self@;
        let ghost fv = from@;
        let ghost tv = to@;
        let Settings { profile_keys, profiles, ever_connected_devices, migration_report, rest } =
            self;
        let ghost orig = pvm(profiles@);
        let ghost target = transfer_settings(sv, fv, tv).profiles;
        let ghost n = orig.len();
        let mut ps = profiles;
        let mut out: Vec<(String, Profile)> = Vec::new();
        proof {
            assert(pvm(ps@) =~= orig.skip(0));
            assert(pvm(out@) =~= target.take(0));
        }
        while ps.len() != 0
            invariant
                pvm(ps@) =~= orig.skip(n - ps@.len() as int),
                0 <= n - ps@.len() as int <= n,
                pvm(out@) =~= target.take(n - ps@.len() as int),
            decreases ps@.len(),
        {
            let ghost i = n - ps@.len() as int;
            let ghost done = pvm(out@);
            let ghost lh = ps@;
            let pair = ps.remove(0);
            proof {
                assert(pvm(lh)[0] == (lh[0].0@, lh[0].1@));
                assert(orig.skip(i)[0] == orig[i]);
                assert((pair.0@, pair.1@) == orig[i]);
                assert forall|j: int| 0 <= j < ps@.len() implies pvm(ps@)[j] == orig.skip(
                    i + 1,
                )[j] by {
                    assert(ps@[j] == lh[j + 1]);
                    assert(pvm(lh)[j + 1] == (lh[j + 1].0@, lh[j + 1].1@));
                    assert(orig.skip(i)[j + 1] == orig[i + 1 + j]);
                }
                assert(pvm(ps@) =~= orig.skip(i + 1));
            }
            let (name, p) = pair;
            let ghost pm = p@;
            let Profile { assignments, rest: prest } = p;
            let new_assignments = transfer_assignment_vec(assignments, from, to);
            let q = Profile { assignments: new_assignments, rest: prest };
            proof {
                assert(q@ == transfer_profile(pm, fv, tv));
                assert(target[i] == (orig[i].0, transfer_profile(orig[i].1, fv, tv)));
            }
            out.push((name, q));
            proof {
                assert(pvm(out@) =~= done.push((name@, q@)));
                assert(pvm(out@) =~= target.take(i + 1));
            }
        }
        let r = Settings {
            profile_keys,
            profiles: out,
            ever_connected_devices,
            migration_report,
            rest,
        };
        proof {
            assert(pvm(r.profiles@) =~= target);
            assert(r@ == transfer_settings(sv, fv, tv));
        }
        r
    }
}

} // verus!
