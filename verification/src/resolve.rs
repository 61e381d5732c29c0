//! Device-name resolution: turning the raw device history into one
//! human-readable line per physical slot. Only devices whose type is
//! `"MOUSE"` count; several records with one slot prefix collapse to the
//! last of them; the display name comes from the migration report, first by
//! exact model match, then by the part of the model before its first
//! underscore, and failing both the model identifier itself is shown.

use vstd::prelude::*;

use crate::json::lit;
use crate::schema::{ConnectedDevice, ConnectedDeviceV, MigrationDevice, MigrationDeviceV, vm};
use crate::transfer::{first_underscore, split_slot};

verus! {

/// The name the migration report gives a model identifier; when several
/// records share one identifier, the last wins.
pub open spec fn model_name(report: Seq<MigrationDeviceV>, id: Seq<char>) -> Option<Seq<char>>
    decreases report.len(),
{
    if report.len() == 0 {
        None
    } else if report.last().model_id == id {
        Some(report.last().device_name)
    } else {
        model_name(report.drop_last(), id)
    }
}

/// Resolution: exact model match first, then the part of the model before
/// its first underscore, then the model identifier verbatim.
pub open spec fn resolved_name(report: Seq<MigrationDeviceV>, model: Seq<char>) -> Seq<char> {
    match model_name(report, model) {
        Some(n) => n,
        None => match first_underscore(model) {
            Some(i) => match model_name(report, model.take(i)) {
                Some(n) => n,
                None => model,
            },
            None => model,
        },
    }
}

/// Only mouse records appear in the output; virtual and other device types
/// are filtered away.
pub open spec fn is_mouse(d: ConnectedDeviceV) -> bool {
    d.device_type == "MOUSE"@
}

/// The slot prefixes of the retained (mouse) records.
pub open spec fn mouse_prefixes(devs: Seq<ConnectedDeviceV>) -> Set<Seq<char>> {
    Set::new(
        |p: Seq<char>|
            exists|i: int| 0 <= i < devs.len() && is_mouse(devs[i]) && devs[i].slot_prefix == p,
    )
}

/// The last mouse record bearing the slot prefix `p`: deduplication keeps
/// it. Meaningful only when some mouse record bears `p`.
pub open spec fn last_mouse(devs: Seq<ConnectedDeviceV>, p: Seq<char>) -> ConnectedDeviceV
    decreases devs.len(),
{
    if devs.len() == 0 {
        ConnectedDeviceV {
            connection_type: None,
            device_model: Seq::empty(),
            device_type: Seq::empty(),
            slot_prefix: Seq::empty(),
            rest: Seq::empty(),
        }
    } else if is_mouse(devs.last()) && devs.last().slot_prefix == p {
        devs.last()
    } else {
        last_mouse(devs.drop_last(), p)
    }
}

/// Strict lexicographic order on character sequences, by code point.
pub open spec fn lex_lt(a: Seq<char>, b: Seq<char>) -> bool
    decreases a.len(),
{
    if b.len() == 0 {
        false
    } else if a.len() == 0 {
        true
    } else if (a[0] as int) < (b[0] as int) {
        true
    } else if (a[0] as int) > (b[0] as int) {
        false
    } else {
        lex_lt(a.drop_first(), b.drop_first())
    }
}

/// Two sequences are lexicographically ordered one way or the other, or
/// they are equal.
pub proof fn lemma_lex_trichotomy(a: Seq<char>, b: Seq<char>)
    ensures
        lex_lt(a, b) || lex_lt(b, a) || a =~= b,
    decreases a.len(),
{
    if a.len() > 0 && b.len() > 0 && a[0] == b[0] {
        lemma_lex_trichotomy(a.drop_first(), b.drop_first());
        if !lex_lt(a, b) && !lex_lt(b, a) {
            assert(a.drop_first() =~= b.drop_first());
            assert forall|i: int| 0 <= i < a.len() implies a[i] == b[i] by {
                if i > 0 {
                    assert(a.drop_first()[i - 1] == b.drop_first()[i - 1]);
                }
            }
        }
    }
}

/// Lexicographic order is transitive.
pub proof fn lemma_lex_trans(a: Seq<char>, b: Seq<char>, c: Seq<char>)
    requires
        lex_lt(a, b),
        lex_lt(b, c),
    ensures
        lex_lt(a, c),
    decreases a.len(),
{
    if a.len() > 0 && b.len() > 0 && c.len() > 0 {
        if a[0] == b[0] && b[0] == c[0] {
            lemma_lex_trans(a.drop_first(), b.drop_first(), c.drop_first());
        }
    }
}

/// Lexicographic order is irreflexive: strictly ordered sequences differ.
pub proof fn lemma_lex_irrefl(a: Seq<char>)
    ensures
        !lex_lt(a, a),
    decreases a.len(),
{
    if a.len() > 0 {
        lemma_lex_irrefl(a.drop_first());
    }
}

/// Compares two strings in lexicographic code-point order.
pub fn str_lt(a: &str, b: &str) -> (r: bool)
    ensures
        r == lex_lt(a@, b@),
{
    let na = a.unicode_len();
    let nb = b.unicode_len();
    let mut i: usize = 0;
    proof {
        assert(a@.skip(0) =~= a@);
        assert(b@.skip(0) =~= b@);
    }
    while i < na && i < nb
        invariant
            i <= na,
            i <= nb,
            na == a@.len(),
            nb == b@.len(),
            lex_lt(a@, b@) == lex_lt(a@.skip(i as int), b@.skip(i as int)),
        decreases na - i,
    {
        let ca = a.get_char(i);
        let cb = b.get_char(i);
        proof {
            assert(a@.skip(i as int)[0] == a@[i as int]);
            assert(b@.skip(i as int)[0] == b@[i as int]);
        }
        if (ca as u32) < (cb as u32) {
            return true;
        }
        if (ca as u32) > (cb as u32) {
            return false;
        }
        proof {
            assert(a@.skip(i as int).drop_first() =~= a@.skip(i as int + 1));
            assert(b@.skip(i as int).drop_first() =~= b@.skip(i as int + 1));
        }
        i = i + 1;
    }
    proof {
        assert(a@.skip(i as int).len() == na - i);
        assert(b@.skip(i as int).len() == nb - i);
    }
    i < nb
}

/// The report's name for `id`, searching from the end so that the last
/// record with the identifier wins.
#[verifier::loop_isolation(false)]
pub fn lookup_model_name(report: &Vec<MigrationDevice>, id: &String) -> (r: Option<String>)
    ensures
        (match r {
            Some(n) => model_name(vm(report@), id@) == Some(n@),
            None => model_name(vm(report@), id@) is None,
        }),
{
    let ghost rep = vm(report@);
    let mut i: usize = report.len();
    proof {
        assert(rep.take(i as int) =~= rep);
    }
    while i > 0
        invariant
            i <= report@.len(),
            model_name(rep, id@) == model_name(rep.take(i as int), id@),
        decreases i,
    {
        i = i - 1;
        let ghost pre = rep.take(i as int + 1);
        proof {
            assert(pre.last() == rep[i as int]);
            assert(pre.drop_last() =~= rep.take(i as int));
            assert(vm(report@)[i as int] == report@[i as int]@);
        }
        if report[i].model_id == *id {
            return Some(report[i].device_name.clone());
        }
    }
    proof {
        assert(rep.take(0).len() == 0);
    }
    None
}

/// The display name for one device model, by the three-step rule.
pub fn resolve_model(report: &Vec<MigrationDevice>, model: &String) -> (r: String)
    ensures
        r@ == resolved_name(vm(report@), model@),
{
    match lookup_model_name(report, model) {
        Some(n) => n,
        None => match split_slot(model.as_str()) {
            Some(parts) => {
                let (prefix, _button) = parts;
                match lookup_model_name(report, &prefix) {
                    Some(n) => n,
                    None => model.clone(),
                }
            },
            None => model.clone(),
        },
    }
}

/// Filters the history to mouse records, deduplicates them by slot prefix
/// (the last record wins) and resolves each display name. The result holds
/// one `(slot prefix, name)` pair per retained prefix, in strictly
/// ascending prefix order.
#[verifier::loop_isolation(false)]
pub fn resolve_devices(history: &Vec<ConnectedDevice>, report: &Vec<MigrationDevice>) -> (r: Vec<
    (String, String),
>)
    ensures
        forall|i: int, j: int| 0 <= i < j < r@.len() ==> lex_lt(r@[i].0@, r@[j].0@),
        forall|i: int|
            0 <= i < r@.len() ==> mouse_prefixes(vm(history@)).contains(#[trigger] r@[i].0@),
        forall|p: Seq<char>|
            mouse_prefixes(vm(history@)).contains(p) ==> exists|i: int|
                0 <= i < r@.len() && #[trigger] r@[i].0@ == p,
        forall|i: int|
            0 <= i < r@.len() ==> #[trigger] r@[i].1@ == resolved_name(
                vm(report@),
                last_mouse(vm(history@), r@[i].0@).device_model,
            ),
{
    let ghost devs = vm(history@);
    let mouse = lit("MOUSE");
    let mut sel: Vec<(String, String)> = Vec::new();
    let n = history.len();
    let mut k: usize = 0;
    while k < n
        invariant
            k <= n,
            n == history@.len(),
            forall|i: int, j: int| 0 <= i < j < sel@.len() ==> lex_lt(sel@[i].0@, sel@[j].0@),
            forall|i: int|
                0 <= i < sel@.len() ==> mouse_prefixes(devs.take(k as int)).contains(
                    #[trigger] sel@[i].0@,
                ),
            forall|p: Seq<char>|
                mouse_prefixes(devs.take(k as int)).contains(p) ==> exists|i: int|
                    0 <= i < sel@.len() && #[trigger] sel@[i].0@ == p,
            forall|i: int|
                0 <= i < sel@.len() ==> #[trigger] sel@[i].1@ == last_mouse(
                    devs.take(k as int),
                    sel@[i].0@,
                ).device_model,
        decreases n - k,
    {
        let ghost pre = devs.take(k as int);
        let ghost post = devs.take(k as int + 1);
        proof {
            assert(vm(history@)[k as int] == history@[k as int]@);
            assert(post.last() == devs[k as int]);
            assert(post.drop_last() =~= pre);
        }
        let d = &history[k];
        if d.device_type == mouse {
            proof {
                assert(is_mouse(devs[k as int]));
                // the new prefix joins the set; every other prefix stays
                assert forall|p: Seq<char>|
                    p != devs[k as int].slot_prefix implies (mouse_prefixes(post).contains(p)
                    <==> mouse_prefixes(pre).contains(p)) by {
                    if mouse_prefixes(post).contains(p) {
                        let i = choose|i: int|
                            0 <= i < post.len() && is_mouse(post[i]) && post[i].slot_prefix == p;
                        assert(pre[i] == post[i]);
                    }
                    if mouse_prefixes(pre).contains(p) {
                        let i = choose|i: int|
                            0 <= i < pre.len() && is_mouse(pre[i]) && pre[i].slot_prefix == p;
                        assert(post[i] == pre[i]);
                    }
                }
                assert(mouse_prefixes(post).contains(devs[k as int].slot_prefix));
                assert forall|p: Seq<char>| p != devs[k as int].slot_prefix implies last_mouse(
                    post,
                    p,
                ) == last_mouse(pre, p) by {}
                assert(last_mouse(post, devs[k as int].slot_prefix) == devs[k as int]);
            }
            let p = d.slot_prefix.clone();
            let m = d.device_model.clone();
            let mut pos: usize = 0;
            while pos < sel.len() && str_lt(sel[pos].0.as_str(), p.as_str())
                invariant
                    pos <= sel@.len(),
                    forall|j: int| 0 <= j < pos ==> lex_lt(sel@[j].0@, p@),
                decreases sel@.len() - pos,
            {
                pos = pos + 1;
            }
            let ghost newp = devs[k as int].slot_prefix;
            let ghost newm = devs[k as int].device_model;
            if pos < sel.len() && sel[pos].0 == p {
                let ghost old_sel = sel@;
                sel.remove(pos);
                sel.insert(pos, (p, m));
                proof {
                    assert(sel@[pos as int].0@ == newp);
                    assert(sel@[pos as int].1@ == newm);
                    assert(sel@.len() == old_sel.len());
                    assert forall|i: int| 0 <= i < sel@.len() && i != pos implies sel@[i]
                        == old_sel[i] by {}
                    assert forall|i: int| 0 <= i < sel@.len() implies #[trigger] sel@[i].0@
                        == old_sel[i].0@ by {}
                    // keys other than the replaced one differ from the new prefix
                    assert forall|i: int| 0 <= i < sel@.len() && i != pos implies sel@[i].0@
                        != newp by {
                        lemma_lex_irrefl(newp);
                        if i < pos {
                            assert(lex_lt(old_sel[i].0@, newp));
                        } else {
                            assert(lex_lt(old_sel[pos as int].0@, old_sel[i].0@));
                        }
                        if sel@[i].0@ == newp {
                            assert(lex_lt(newp, newp));
                        }
                    }
                    assert forall|i: int| 0 <= i < sel@.len() implies #[trigger] sel@[i].1@
                        == last_mouse(post, sel@[i].0@).device_model by {
                        if i != pos {
                            assert(sel@[i].1@ == last_mouse(pre, sel@[i].0@).device_model);
                        }
                    }
                    assert forall|q: Seq<char>| mouse_prefixes(post).contains(q) implies exists|i: int|
                        0 <= i < sel@.len() && #[trigger] sel@[i].0@ == q by {
                        if q == newp {
                            assert(sel@[pos as int].0@ == q);
                        } else {
                            assert(mouse_prefixes(pre).contains(q));
                            let i = choose|i: int|
                                0 <= i < old_sel.len() && #[trigger] old_sel[i].0@ == q;
                            assert(sel@[i].0@ == q);
                        }
                    }
                    assert forall|i: int|
                        0 <= i < sel@.len() implies mouse_prefixes(post).contains(
                        #[trigger] sel@[i].0@,
                    ) by {
                        if i != pos {
                            assert(mouse_prefixes(pre).contains(sel@[i].0@));
                        }
                    }
                }
            } else {
                let ghost old_sel = sel@;
                proof {
                    lemma_lex_irrefl(newp);
                    if pos < old_sel.len() {
                        lemma_lex_trichotomy(old_sel[pos as int].0@, p@);
                    }
                    assert forall|j: int| pos <= j < old_sel.len() implies lex_lt(
                        p@,
                        old_sel[j].0@,
                    ) by {
                        if j > pos {
                            lemma_lex_trans(p@, old_sel[pos as int].0@, old_sel[j].0@);
                        }
                    }
                }
                sel.insert(pos, (p, m));
                proof {
                    assert(sel@[pos as int].0@ == newp);
                    assert(sel@[pos as int].1@ == newm);
                    assert(sel@.len() == old_sel.len() + 1);
                    assert forall|i: int| 0 <= i < pos implies sel@[i] == old_sel[i] by {}
                    assert forall|i: int| pos < i < sel@.len() implies sel@[i] == old_sel[i
                        - 1] by {}
                    // every old key differs from the new prefix
                    assert forall|i: int| 0 <= i < sel@.len() && i != pos implies sel@[i].0@
                        != newp by {
                        if sel@[i].0@ == newp {
                            if i < pos {
                                assert(lex_lt(old_sel[i].0@, newp));
                            } else {
                                assert(lex_lt(newp, old_sel[i - 1].0@));
                            }
                            assert(lex_lt(newp, newp));
                        }
                    }
                    assert forall|i: int, j: int| 0 <= i < j < sel@.len() implies lex_lt(
                        sel@[i].0@,
                        sel@[j].0@,
                    ) by {
                        if i < pos && j > pos {
                            assert(lex_lt(old_sel[i].0@, p@));
                            assert(lex_lt(p@, old_sel[j - 1].0@));
                            lemma_lex_trans(old_sel[i].0@, p@, old_sel[j - 1].0@);
                        }
                    }
                    assert forall|i: int| 0 <= i < sel@.len() implies #[trigger] sel@[i].1@
                        == last_mouse(post, sel@[i].0@).device_model by {
                        if i != pos {
                            assert(sel@[i].1@ == last_mouse(pre, sel@[i].0@).device_model);
                        }
                    }
                    assert forall|q: Seq<char>| mouse_prefixes(post).contains(q) implies exists|i: int|
                        0 <= i < sel@.len() && #[trigger] sel@[i].0@ == q by {
                        if q == newp {
                            assert(sel@[pos as int].0@ == q);
                        } else {
                            assert(mouse_prefixes(pre).contains(q));
                            let i = choose|i: int|
                                0 <= i < old_sel.len() && #[trigger] old_sel[i].0@ == q;
                            if i < pos {
                                assert(sel@[i].0@ == q);
                            } else {
                                assert(sel@[i + 1].0@ == q);
                            }
                        }
                    }
                    assert forall|i: int|
                        0 <= i < sel@.len() implies mouse_prefixes(post).contains(
                        #[trigger] sel@[i].0@,
                    ) by {
                        if i != pos {
                            assert(mouse_prefixes(pre).contains(sel@[i].0@));
                        }
                    }
                }
            }
        } else {
            proof {
                assert(!is_mouse(devs[k as int]));
                assert forall|p: Seq<char>| #[trigger] mouse_prefixes(post).contains(p) implies
                    mouse_prefixes(pre).contains(p) by {
                    let i = choose|i: int|
                        0 <= i < post.len() && is_mouse(post[i]) && post[i].slot_prefix == p;
                    assert(i < pre.len());
                    assert(pre[i] == post[i]);
                }
                assert forall|p: Seq<char>| #[trigger] mouse_prefixes(pre).contains(p) implies
                    mouse_prefixes(post).contains(p) by {
                    let i = choose|i: int|
                        0 <= i < pre.len() && is_mouse(pre[i]) && pre[i].slot_prefix == p;
                    assert(post[i] == pre[i]);
                }
                assert forall|p: Seq<char>| true implies last_mouse(post, p) == last_mouse(
                    pre,
                    p,
                ) by {}
                assert forall|q: Seq<char>| mouse_prefixes(post).contains(q) implies exists|i: int|
                    0 <= i < sel@.len() && #[trigger] sel@[i].0@ == q by {
                    assert(mouse_prefixes(pre).contains(q));
                }
            }
        }
        k = k + 1;
    }
    proof {
        assert(devs.take(n as int) =~= devs);
        assert forall|q: Seq<char>| mouse_prefixes(devs).contains(q) implies exists|i: int|
            0 <= i < sel@.len() && #[trigger] sel@[i].0@ == q by {
            assert(mouse_prefixes(devs.take(n as int)).contains(q));
        }
    }
    let mut out: Vec<(String, String)> = Vec::new();
    let mut t: usize = 0;
    while t < sel.len()
        invariant
            t <= sel@.len(),
            out@.len() == t,
            forall|i: int| 0 <= i < t ==> #[trigger] out@[i].0@ == sel@[i].0@,
            forall|i: int|
                0 <= i < t ==> #[trigger] out@[i].1@ == resolved_name(vm(report@), sel@[i].1@),
        decreases sel@.len() - t,
    {
        let prefix = sel[t].0.clone();
        let name = resolve_model(report, &sel[t].1);
        out.push((prefix, name));
        t = t + 1;
    }
    proof {
        assert forall|q: Seq<char>| mouse_prefixes(vm(history@)).contains(q) implies exists|i: int|
            0 <= i < out@.len() && #[trigger] out@[i].0@ == q by {
            let i = choose|i: int| 0 <= i < sel@.len() && #[trigger] sel@[i].0@ == q;
            assert(out@[i].0@ == q);
        }
    }
    out
}

impl crate::schema::Settings {
    /// The resolved device listing of the document: one
    /// `(slot prefix, display name)` pair per retained slot, in strictly
    /// ascending prefix order.
    pub fn device_pairs(&self) -> (r: Vec<(String, String)>)
        ensures
            forall|i: int, j: int| 0 <= i < j < r@.len() ==> lex_lt(r@[i].0@, r@[j].0@),
            forall|i: int|
                0 <= i < r@.len() ==> mouse_prefixes(
                    self@.ever_connected_devices.devices,
                ).contains(#[trigger] r@[i].0@),
            forall|p: Seq<char>|
                mouse_prefixes(self@.ever_connected_devices.devices).contains(p) ==> exists|
                    i: int,
                |
                    0 <= i < r@.len() && #[trigger] r@[i].0@ == p,
            forall|i: int|
                0 <= i < r@.len() ==> #[trigger] r@[i].1@ == resolved_name(
                    self@.migration_report.devices,
                    last_mouse(self@.ever_connected_devices.devices, r@[i].0@).device_model,
                ),
    {
        resolve_devices(&self.ever_connected_devices.devices, &self.migration_report.devices)
    }
}

/// One output line: `"<slot prefix>: <name>"`.
pub fn device_line(prefix: &str, name: &str) -> (r: String)
    ensures
        r@ == prefix@ + ": "@ + name@,
{
    let mut s = prefix.to_owned();
    s.append(": ");
    s.append(name);
    s
}

} // verus!
