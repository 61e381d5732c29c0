//! The laws the library keeps, stated once and proved for every input:
//! encoding a well-formed document and decoding the result gives the
//! document back; a `profile_keys` name with no body makes decoding fail;
//! a transfer with nothing to move changes nothing when repeated; and the
//! device listing ignores non-mouse records and never shows a slot prefix
//! twice.

use vstd::prelude::*;

use crate::json::{
    JVal, has_key, keys_unique, lookup, remove_key, insert_entry, lemma_has_key_unfold,
    lemma_remove_key_absent, lemma_insert_entry_absent,
};
use crate::schema::{
    AssignmentV, ProfileV, ConnectedDeviceV, MigrationDeviceV, EverConnectedDevicesV,
    MigrationReportV, SettingsV, SchemaErrorV, decode_assignment, encode_assignment,
    decode_assignment_list, decode_profile, encode_profile, decode_connected_device,
    encode_connected_device, decode_migration_device, encode_migration_device,
    decode_connected_device_list, decode_migration_device_list, decode_profile_name,
    decode_profile_name_list, decode_ever_connected_devices, encode_ever_connected_devices,
    decode_migration_report, encode_migration_report, decode_settings, decode_settings_obj,
    encode_settings, take_str_field, take_opt_str_field, take_arr_field, promote, demote,
};

verus! {

// ------------------------------------------------------------------
// Well-formedness: what decoding always establishes, and what encoding
// needs to be reversible. A remainder bag never holds a typed field's
// name.
// ------------------------------------------------------------------

impl AssignmentV {
    pub open spec fn wf(self) -> bool {
        !has_key(self.rest, "slotId"@)
    }
}

impl ProfileV {
    pub open spec fn wf(self) -> bool {
        &&& !has_key(self.rest, "assignments"@)
        &&& forall|i: int| 0 <= i < self.assignments.len() ==> (#[trigger] self.assignments[i]).wf()
    }
}

impl ConnectedDeviceV {
    pub open spec fn wf(self) -> bool {
        &&& !has_key(self.rest, "connectionType"@)
        &&& !has_key(self.rest, "deviceModel"@)
        &&& !has_key(self.rest, "deviceType"@)
        &&& !has_key(self.rest, "slotPrefix"@)
    }
}

impl MigrationDeviceV {
    pub open spec fn wf(self) -> bool {
        &&& !has_key(self.rest, "deviceName"@)
        &&& !has_key(self.rest, "modelId"@)
    }
}

impl EverConnectedDevicesV {
    pub open spec fn wf(self) -> bool {
        &&& !has_key(self.rest, "devices"@)
        &&& forall|i: int| 0 <= i < self.devices.len() ==> (#[trigger] self.devices[i]).wf()
    }
}

impl MigrationReportV {
    pub open spec fn wf(self) -> bool {
        &&& !has_key(self.rest, "devices"@)
        &&& forall|i: int| 0 <= i < self.devices.len() ==> (#[trigger] self.devices[i]).wf()
    }
}

impl SettingsV {
    /// A consistent document: the profile map matches `profile_keys` name
    /// for name, names are distinct, and no name collides with a typed
    /// field or a remainder entry.
    pub open spec fn wf(self) -> bool {
        &&& self.profiles.len() == self.profile_keys.len()
        &&& forall|i: int|
            0 <= i < self.profiles.len() ==> (#[trigger] self.profiles[i]).0
                == self.profile_keys[i]
        &&& forall|i: int, j: int|
            0 <= i < j < self.profile_keys.len() ==> self.profile_keys[i] != self.profile_keys[j]
        &&& forall|i: int|
            0 <= i < self.profile_keys.len() ==> !has_key(
                self.rest,
                #[trigger] self.profile_keys[i],
            )
        &&& forall|i: int| 0 <= i < self.profiles.len() ==> (#[trigger] self.profiles[i]).1.wf()
        &&& !has_key(self.rest, "profile_keys"@)
        &&& !has_key(self.rest, "ever_connected_devices"@)
        &&& !has_key(self.rest, "migration_report"@)
        &&& self.ever_connected_devices.wf()
        &&& self.migration_report.wf()
    }
}

// ------------------------------------------------------------------
// Key lookup across a concatenation.
// ------------------------------------------------------------------

pub proof fn lemma_lookup_concat(a: Seq<(Seq<char>, JVal)>, b: Seq<(Seq<char>, JVal)>, k: Seq<char>)
    requires
        !has_key(a, k),
    ensures
        lookup(a + b, k) == lookup(b, k),
    decreases a.len(),
{
    if a.len() > 0 {
        lemma_has_key_unfold(a, k);
        lemma_lookup_concat(a.drop_first(), b, k);
        assert((a + b)[0] == a[0]);
        assert((a + b).drop_first() =~= a.drop_first() + b);
    } else {
        assert(a + b =~= b);
    }
}

pub proof fn lemma_remove_key_concat(
    a: Seq<(Seq<char>, JVal)>,
    b: Seq<(Seq<char>, JVal)>,
    k: Seq<char>,
)
    requires
        !has_key(a, k),
    ensures
        remove_key(a + b, k) =~= a + remove_key(b, k),
    decreases a.len(),
{
    if a.len() > 0 {
        lemma_has_key_unfold(a, k);
        lemma_remove_key_concat(a.drop_first(), b, k);
        assert((a + b)[0] == a[0]);
        assert((a + b).drop_first() =~= a.drop_first() + b);
        assert(seq![a[0]] + (a.drop_first() + remove_key(b, k)) =~= a + remove_key(b, k));
    } else {
        assert(a + b =~= b);
    }
}

pub proof fn lemma_has_key_push(s: Seq<(Seq<char>, JVal)>, e: (Seq<char>, JVal))
    ensures
        forall|k: Seq<char>| has_key(s.push(e), k) <==> (has_key(s, k) || e.0 == k),
{
    assert forall|k: Seq<char>| has_key(s.push(e), k) implies (has_key(s, k) || e.0 == k) by {
        let i = choose|i: int| 0 <= i < s.push(e).len() && s.push(e)[i].0 == k;
        if i < s.len() {
            assert(s[i].0 == k);
        }
    }
    assert forall|k: Seq<char>| has_key(s, k) || e.0 == k implies has_key(s.push(e), k) by {
        if has_key(s, k) {
            let i = choose|i: int| 0 <= i < s.len() && s[i].0 == k;
            assert(s.push(e)[i].0 == k);
        } else {
            assert(s.push(e)[s.len() as int].0 == k);
        }
    }
}

// ------------------------------------------------------------------
// Round trip: encode then decode is the identity on well-formed values.
// ------------------------------------------------------------------

pub proof fn lemma_assignment_round_trip(a: AssignmentV)
    requires
        a.wf(),
    ensures
        decode_assignment(encode_assignment(a)) == Ok::<AssignmentV, SchemaErrorV>(a),
{
    lemma_remove_key_absent(a.rest, "slotId"@);
    let e = seq![("slotId"@, JVal::Str(a.slot_id))] + remove_key(a.rest, "slotId"@);
    assert(e[0].0 == "slotId"@);
    assert(lookup(e, "slotId"@) == Some(JVal::Str(a.slot_id)));
    assert(remove_key(e, "slotId"@) =~= a.rest);
    assert(decode_assignment(encode_assignment(a))->Ok_0 == AssignmentV {
        slot_id: a.slot_id,
        rest: a.rest,
    });
}

pub proof fn lemma_assignment_list_round_trip(xs: Seq<AssignmentV>)
    requires
        forall|i: int| 0 <= i < xs.len() ==> (#[trigger] xs[i]).wf(),
    ensures
        decode_assignment_list(xs.map_values(|a: AssignmentV| encode_assignment(a)))
            == Ok::<Seq<AssignmentV>, SchemaErrorV>(xs),
    decreases xs.len(),
{
    let m = xs.map_values(|a: AssignmentV| encode_assignment(a));
    if xs.len() == 0 {
        assert(decode_assignment_list(m) == Ok::<Seq<AssignmentV>, SchemaErrorV>(Seq::empty()));
        assert(xs =~= Seq::<AssignmentV>::empty());
    } else {
        lemma_assignment_round_trip(xs[0]);
        assert(m[0] == encode_assignment(xs[0]));
        assert(m.drop_first() =~= xs.drop_first().map_values(
            |a: AssignmentV| encode_assignment(a),
        ));
        lemma_assignment_list_round_trip(xs.drop_first());
        assert(seq![xs[0]] + xs.drop_first() =~= xs);
    }
}

pub proof fn lemma_profile_round_trip(p: ProfileV)
    requires
        p.wf(),
    ensures
        decode_profile(encode_profile(p)) == Ok::<ProfileV, SchemaErrorV>(p),
{
    lemma_remove_key_absent(p.rest, "assignments"@);
    let arr = JVal::Arr(p.assignments.map_values(|a: AssignmentV| encode_assignment(a)));
    let e = seq![("assignments"@, arr)] + remove_key(p.rest, "assignments"@);
    assert(e[0].0 == "assignments"@);
    assert(lookup(e, "assignments"@) == Some(arr));
    assert(remove_key(e, "assignments"@) =~= p.rest);
    lemma_assignment_list_round_trip(p.assignments);
    assert(decode_profile(encode_profile(p))->Ok_0 == ProfileV {
        assignments: p.assignments,
        rest: p.rest,
    });
}

pub proof fn lemma_connected_device_round_trip(d: ConnectedDeviceV)
    requires
        d.wf(),
    ensures
        decode_connected_device(encode_connected_device(d)) == Ok::<
            ConnectedDeviceV,
            SchemaErrorV,
        >(d),
{
    lemma_remove_key_absent(d.rest, "connectionType"@);
    lemma_remove_key_absent(d.rest, "deviceModel"@);
    lemma_remove_key_absent(remove_key(d.rest, "connectionType"@), "deviceModel"@);
    lemma_remove_key_absent(d.rest, "deviceType"@);
    lemma_remove_key_absent(
        remove_key(remove_key(d.rest, "connectionType"@), "deviceModel"@),
        "deviceType"@,
    );
    lemma_remove_key_absent(d.rest, "slotPrefix"@);
    lemma_remove_key_absent(
        remove_key(remove_key(remove_key(d.rest, "connectionType"@), "deviceModel"@), "deviceType"@),
        "slotPrefix"@,
    );
    let ctv = match d.connection_type {
        Some(s) => JVal::Str(s),
        None => JVal::Null,
    };
    let e0 = seq![
        ("connectionType"@, ctv),
        ("deviceModel"@, JVal::Str(d.device_model)),
        ("deviceType"@, JVal::Str(d.device_type)),
        ("slotPrefix"@, JVal::Str(d.slot_prefix)),
    ] + d.rest;
    assert(encode_connected_device(d)->Obj_0 =~= e0);
    assert(lookup(e0, "connectionType"@) == Some(ctv));
    let e1 = remove_key(e0, "connectionType"@);
    assert(e1 =~= seq![
        ("deviceModel"@, JVal::Str(d.device_model)),
        ("deviceType"@, JVal::Str(d.device_type)),
        ("slotPrefix"@, JVal::Str(d.slot_prefix)),
    ] + d.rest);
    assert(take_opt_str_field(e0, "connectionType"@) == Ok::<_, SchemaErrorV>(
        (d.connection_type, e1),
    ));
    assert(lookup(e1, "deviceModel"@) == Some(JVal::Str(d.device_model)));
    let e2 = remove_key(e1, "deviceModel"@);
    assert(e2 =~= seq![
        ("deviceType"@, JVal::Str(d.device_type)),
        ("slotPrefix"@, JVal::Str(d.slot_prefix)),
    ] + d.rest);
    assert(take_str_field(e1, "deviceModel"@) == Ok::<_, SchemaErrorV>((d.device_model, e2)));
    assert(lookup(e2, "deviceType"@) == Some(JVal::Str(d.device_type)));
    let e3 = remove_key(e2, "deviceType"@);
    assert(e3 =~= seq![("slotPrefix"@, JVal::Str(d.slot_prefix))] + d.rest);
    assert(take_str_field(e2, "deviceType"@) == Ok::<_, SchemaErrorV>((d.device_type, e3)));
    assert(lookup(e3, "slotPrefix"@) == Some(JVal::Str(d.slot_prefix)));
    assert(remove_key(e3, "slotPrefix"@) =~= d.rest);
    assert(take_str_field(e3, "slotPrefix"@) == Ok::<_, SchemaErrorV>((d.slot_prefix, d.rest)));
    assert(decode_connected_device(encode_connected_device(d))->Ok_0 == ConnectedDeviceV {
        connection_type: d.connection_type,
        device_model: d.device_model,
        device_type: d.device_type,
        slot_prefix: d.slot_prefix,
        rest: d.rest,
    });
}

pub proof fn lemma_migration_device_round_trip(d: MigrationDeviceV)
    requires
        d.wf(),
    ensures
        decode_migration_device(encode_migration_device(d)) == Ok::<
            MigrationDeviceV,
            SchemaErrorV,
        >(d),
{
    lemma_remove_key_absent(d.rest, "deviceName"@);
    lemma_remove_key_absent(d.rest, "modelId"@);
    lemma_remove_key_absent(remove_key(d.rest, "deviceName"@), "modelId"@);
    let e0 = seq![
        ("deviceName"@, JVal::Str(d.device_name)),
        ("modelId"@, JVal::Str(d.model_id)),
    ] + d.rest;
    assert(encode_migration_device(d)->Obj_0 =~= e0);
    assert(lookup(e0, "deviceName"@) == Some(JVal::Str(d.device_name)));
    let e1 = remove_key(e0, "deviceName"@);
    assert(e1 =~= seq![("modelId"@, JVal::Str(d.model_id))] + d.rest);
    assert(take_str_field(e0, "deviceName"@) == Ok::<_, SchemaErrorV>((d.device_name, e1)));
    assert(lookup(e1, "modelId"@) == Some(JVal::Str(d.model_id)));
    assert(remove_key(e1, "modelId"@) =~= d.rest);
    assert(take_str_field(e1, "modelId"@) == Ok::<_, SchemaErrorV>((d.model_id, d.rest)));
    assert(decode_migration_device(encode_migration_device(d))->Ok_0 == MigrationDeviceV {
        device_name: d.device_name,
        model_id: d.model_id,
        rest: d.rest,
    });
}

pub proof fn lemma_connected_device_list_round_trip(xs: Seq<ConnectedDeviceV>)
    requires
        forall|i: int| 0 <= i < xs.len() ==> (#[trigger] xs[i]).wf(),
    ensures
        decode_connected_device_list(
            xs.map_values(|d: ConnectedDeviceV| encode_connected_device(d)),
        ) == Ok::<Seq<ConnectedDeviceV>, SchemaErrorV>(xs),
    decreases xs.len(),
{
    let m = xs.map_values(|d: ConnectedDeviceV| encode_connected_device(d));
    if xs.len() == 0 {
        assert(decode_connected_device_list(m) == Ok::<Seq<ConnectedDeviceV>, SchemaErrorV>(
            Seq::empty(),
        ));
        assert(xs =~= Seq::<ConnectedDeviceV>::empty());
    } else {
        lemma_connected_device_round_trip(xs[0]);
        assert(m[0] == encode_connected_device(xs[0]));
        assert(m.drop_first() =~= xs.drop_first().map_values(
            |d: ConnectedDeviceV| encode_connected_device(d),
        ));
        lemma_connected_device_list_round_trip(xs.drop_first());
        assert(seq![xs[0]] + xs.drop_first() =~= xs);
    }
}

pub proof fn lemma_migration_device_list_round_trip(xs: Seq<MigrationDeviceV>)
    requires
        forall|i: int| 0 <= i < xs.len() ==> (#[trigger] xs[i]).wf(),
    ensures
        decode_migration_device_list(
            xs.map_values(|d: MigrationDeviceV| encode_migration_device(d)),
        ) == Ok::<Seq<MigrationDeviceV>, SchemaErrorV>(xs),
    decreases xs.len(),
{
    let m = xs.map_values(|d: MigrationDeviceV| encode_migration_device(d));
    if xs.len() == 0 {
        assert(decode_migration_device_list(m) == Ok::<Seq<MigrationDeviceV>, SchemaErrorV>(
            Seq::empty(),
        ));
        assert(xs =~= Seq::<MigrationDeviceV>::empty());
    } else {
        lemma_migration_device_round_trip(xs[0]);
        assert(m[0] == encode_migration_device(xs[0]));
        assert(m.drop_first() =~= xs.drop_first().map_values(
            |d: MigrationDeviceV| encode_migration_device(d),
        ));
        lemma_migration_device_list_round_trip(xs.drop_first());
        assert(seq![xs[0]] + xs.drop_first() =~= xs);
    }
}

pub proof fn lemma_profile_name_list_round_trip(ks: Seq<Seq<char>>)
    ensures
        decode_profile_name_list(ks.map_values(|k: Seq<char>| JVal::Str(k))) == Ok::<
            Seq<Seq<char>>,
            SchemaErrorV,
        >(ks),
    decreases ks.len(),
{
    let m = ks.map_values(|k: Seq<char>| JVal::Str(k));
    if ks.len() == 0 {
        assert(decode_profile_name_list(m) == Ok::<Seq<Seq<char>>, SchemaErrorV>(Seq::empty()));
        assert(ks =~= Seq::<Seq<char>>::empty());
    } else {
        assert(m[0] == JVal::Str(ks[0]));
        assert(decode_profile_name(m[0]) == Ok::<Seq<char>, SchemaErrorV>(ks[0]));
        assert(m.drop_first() =~= ks.drop_first().map_values(|k: Seq<char>| JVal::Str(k)));
        lemma_profile_name_list_round_trip(ks.drop_first());
        assert(seq![ks[0]] + ks.drop_first() =~= ks);
    }
}

pub proof fn lemma_ever_connected_devices_round_trip(d: EverConnectedDevicesV)
    requires
        d.wf(),
    ensures
        decode_ever_connected_devices(encode_ever_connected_devices(d)) == Ok::<
            EverConnectedDevicesV,
            SchemaErrorV,
        >(d),
{
    lemma_remove_key_absent(d.rest, "devices"@);
    let arr = JVal::Arr(d.devices.map_values(|x: ConnectedDeviceV| encode_connected_device(x)));
    let e = seq![("devices"@, arr)] + remove_key(d.rest, "devices"@);
    assert(e[0].0 == "devices"@);
    assert(lookup(e, "devices"@) == Some(arr));
    assert(remove_key(e, "devices"@) =~= d.rest);
    lemma_connected_device_list_round_trip(d.devices);
    assert(decode_ever_connected_devices(encode_ever_connected_devices(d))->Ok_0
        == EverConnectedDevicesV { devices: d.devices, rest: d.rest });
}

pub proof fn lemma_migration_report_round_trip(d: MigrationReportV)
    requires
        d.wf(),
    ensures
        decode_migration_report(encode_migration_report(d)) == Ok::<
            MigrationReportV,
            SchemaErrorV,
        >(d),
{
    lemma_remove_key_absent(d.rest, "devices"@);
    let arr = JVal::Arr(d.devices.map_values(|x: MigrationDeviceV| encode_migration_device(x)));
    let e = seq![("devices"@, arr)] + remove_key(d.rest, "devices"@);
    assert(e[0].0 == "devices"@);
    assert(lookup(e, "devices"@) == Some(arr));
    assert(remove_key(e, "devices"@) =~= d.rest);
    lemma_migration_device_list_round_trip(d.devices);
    assert(decode_migration_report(encode_migration_report(d))->Ok_0 == MigrationReportV {
        devices: d.devices,
        rest: d.rest,
    });
}

/// The names of the profile map, in order.
pub open spec fn profile_names(ps: Seq<(Seq<char>, ProfileV)>) -> Seq<Seq<char>> {
    Seq::new(ps.len(), |i: int| ps[i].0)
}

/// The profile map as remainder entries, each profile encoded.
pub open spec fn profile_entries(ps: Seq<(Seq<char>, ProfileV)>) -> Seq<(Seq<char>, JVal)> {
    Seq::new(ps.len(), |i: int| (ps[i].0, encode_profile(ps[i].1)))
}

/// Demotion appends the encoded profiles to the remainder, in order, when
/// no profile name is already a remainder key.
pub proof fn lemma_demote_appends(ps: Seq<(Seq<char>, ProfileV)>, rest: Seq<(Seq<char>, JVal)>)
    requires
        forall|i: int| 0 <= i < ps.len() ==> !has_key(rest, #[trigger] ps[i].0),
        forall|i: int, j: int| 0 <= i < j < ps.len() ==> ps[i].0 != ps[j].0,
    ensures
        demote(ps, rest) =~= rest + profile_entries(ps),
    decreases ps.len(),
{
    if ps.len() == 0 {
        assert(rest + profile_entries(ps) =~= rest);
    } else {
        let entry = (ps[0].0, encode_profile(ps[0].1));
        lemma_insert_entry_absent(rest, ps[0].0, encode_profile(ps[0].1));
        assert(insert_entry(rest, ps[0].0, encode_profile(ps[0].1)) == rest.push(entry));
        lemma_has_key_push(rest, entry);
        assert forall|i: int| 0 <= i < ps.drop_first().len() implies !has_key(
            rest.push(entry),
            #[trigger] ps.drop_first()[i].0,
        ) by {
            assert(ps.drop_first()[i] == ps[i + 1]);
            assert(ps[i + 1].0 != ps[0].0);
        }
        lemma_demote_appends(ps.drop_first(), rest.push(entry));
        assert(demote(ps, rest) == demote(ps.drop_first(), rest.push(entry)));
        assert(profile_entries(ps.drop_first()) =~= profile_entries(ps).drop_first());
        assert(rest.push(entry) + profile_entries(ps).drop_first() =~= rest + profile_entries(
            ps,
        ));
    }
}

/// Promotion undoes demotion: reading the appended profiles back, name by
/// name, gives the same map and leaves the remainder as it was.
pub proof fn lemma_promote_demote(ps: Seq<(Seq<char>, ProfileV)>, rest: Seq<(Seq<char>, JVal)>)
    requires
        forall|i: int| 0 <= i < ps.len() ==> !has_key(rest, #[trigger] ps[i].0),
        forall|i: int, j: int| 0 <= i < j < ps.len() ==> ps[i].0 != ps[j].0,
        forall|i: int| 0 <= i < ps.len() ==> (#[trigger] ps[i]).1.wf(),
    ensures
        promote(rest + profile_entries(ps), profile_names(ps)) == Ok::<
            (Seq<(Seq<char>, ProfileV)>, Seq<(Seq<char>, JVal)>),
            SchemaErrorV,
        >((ps, rest)),
    decreases ps.len(),
{
    let bag = rest + profile_entries(ps);
    let names = profile_names(ps);
    if ps.len() == 0 {
        assert(names.len() == 0);
        assert(bag =~= rest);
        assert(ps =~= Seq::<(Seq<char>, ProfileV)>::empty());
    } else {
        let k0 = ps[0].0;
        let pe = profile_entries(ps);
        assert(names[0] == k0);
        lemma_lookup_concat(rest, pe, k0);
        assert(pe[0].0 == k0);
        assert(lookup(pe, k0) == Some(encode_profile(ps[0].1)));
        lemma_profile_round_trip(ps[0].1);
        lemma_remove_key_concat(rest, pe, k0);
        assert(remove_key(pe, k0) =~= pe.drop_first());
        assert(pe.drop_first() =~= profile_entries(ps.drop_first()));
        assert(remove_key(bag, k0) =~= rest + profile_entries(ps.drop_first()));
        let tail = ps.drop_first();
        assert forall|i: int, j: int| 0 <= i < j < tail.len() implies tail[i].0 != tail[j].0 by {
            assert(tail[i] == ps[i + 1]);
            assert(tail[j] == ps[j + 1]);
        }
        lemma_promote_demote(ps.drop_first(), rest);
        assert(names.drop_first() =~= profile_names(ps.drop_first()));
        assert(promote(remove_key(bag, k0), names.drop_first()) == Ok::<
            (Seq<(Seq<char>, ProfileV)>, Seq<(Seq<char>, JVal)>),
            SchemaErrorV,
        >((ps.drop_first(), rest)));
        assert(ps[0] == (k0, ps[0].1));
        assert(seq![(k0, ps[0].1)] + ps.drop_first() =~= ps);
    }
}

/// Promotion/demotion inverse: encoding a well-formed document and
/// decoding the result gives the document back — the profile map, the key
/// list and the remainder included.
pub proof fn lemma_settings_round_trip(s: SettingsV)
    requires
        s.wf(),
    ensures
        decode_settings(encode_settings(s)) == Ok::<SettingsV, SchemaErrorV>(s),
{
    lemma_remove_key_absent(s.rest, "profile_keys"@);
    lemma_remove_key_absent(s.rest, "ever_connected_devices"@);
    lemma_remove_key_absent(remove_key(s.rest, "profile_keys"@), "ever_connected_devices"@);
    lemma_remove_key_absent(s.rest, "migration_report"@);
    lemma_remove_key_absent(
        remove_key(remove_key(s.rest, "profile_keys"@), "ever_connected_devices"@),
        "migration_report"@,
    );
    let stripped = remove_key(
        remove_key(remove_key(s.rest, "profile_keys"@), "ever_connected_devices"@),
        "migration_report"@,
    );
    assert(stripped =~= s.rest);
    assert forall|i: int, j: int|
        0 <= i < j < s.profiles.len() implies s.profiles[i].0 != s.profiles[j].0 by {
        assert(s.profiles[i].0 == s.profile_keys[i]);
        assert(s.profiles[j].0 == s.profile_keys[j]);
    }
    assert forall|i: int| 0 <= i < s.profiles.len() implies !has_key(
        s.rest,
        #[trigger] s.profiles[i].0,
    ) by {
        assert(s.profiles[i].0 == s.profile_keys[i]);
    }
    lemma_demote_appends(s.profiles, s.rest);
    let pkv = JVal::Arr(s.profile_keys.map_values(|k: Seq<char>| JVal::Str(k)));
    let ecdv = encode_ever_connected_devices(s.ever_connected_devices);
    let mrv = encode_migration_report(s.migration_report);
    let e0 = seq![
        ("profile_keys"@, pkv),
        ("ever_connected_devices"@, ecdv),
        ("migration_report"@, mrv),
    ] + (s.rest + profile_entries(s.profiles));
    assert(encode_settings(s)->Obj_0 =~= e0);
    assert(lookup(e0, "profile_keys"@) == Some(pkv));
    let e1 = remove_key(e0, "profile_keys"@);
    assert(e1 =~= seq![("ever_connected_devices"@, ecdv), ("migration_report"@, mrv)] + (s.rest
        + profile_entries(s.profiles)));
    assert(take_arr_field(e0, "profile_keys"@) == Ok::<_, SchemaErrorV>(
        (s.profile_keys.map_values(|k: Seq<char>| JVal::Str(k)), e1),
    ));
    lemma_profile_name_list_round_trip(s.profile_keys);
    assert(lookup(e1, "ever_connected_devices"@) == Some(ecdv));
    let e2 = remove_key(e1, "ever_connected_devices"@);
    assert(e2 =~= seq![("migration_report"@, mrv)] + (s.rest + profile_entries(s.profiles)));
    lemma_ever_connected_devices_round_trip(s.ever_connected_devices);
    assert(lookup(e2, "migration_report"@) == Some(mrv));
    let e3 = remove_key(e2, "migration_report"@);
    assert(e3 =~= s.rest + profile_entries(s.profiles));
    lemma_migration_report_round_trip(s.migration_report);
    lemma_promote_demote(s.profiles, s.rest);
    assert(profile_names(s.profiles) =~= s.profile_keys);
    assert(promote(e3, s.profile_keys) == Ok::<
        (Seq<(Seq<char>, ProfileV)>, Seq<(Seq<char>, JVal)>),
        SchemaErrorV,
    >((s.profiles, s.rest)));
    assert(decode_settings_obj(e0)->Ok_0 == SettingsV {
        profile_keys: s.profile_keys,
        profiles: s.profiles,
        ever_connected_devices: s.ever_connected_devices,
        migration_report: s.migration_report,
        rest: s.rest,
    });
}

// ------------------------------------------------------------------
// Round trip the other way: decode then encode gives a structurally
// equivalent value — same keys and values at every depth, whatever the
// order in which the original object listed its entries.
// ------------------------------------------------------------------

use crate::json::{
    jwf, jeq, lemma_jeq_refl, lemma_lookup_entry, lemma_cons_unique, lemma_concat_unique,
    lemma_lookup_has_key, lemma_remove_key_props, lemma_remove_key_entry_of, lemma_lookup_at,
};

/// Decoding an assignment object and encoding the result reproduces it, up
/// to entry order.
pub proof fn lemma_assignment_decode_encode(v: JVal)
    requires
        jwf(v),
        decode_assignment(v) is Ok,
    ensures
        jeq(encode_assignment(decode_assignment(v)->Ok_0), v),
        decode_assignment(v)->Ok_0.wf(),
{
    let e = v->Obj_0;
    let a = decode_assignment(v)->Ok_0;
    lemma_remove_key_props(e, "slotId"@);
    lemma_lookup_has_key(e, "slotId"@);
    assert(a.rest == remove_key(e, "slotId"@));
    assert(!has_key(a.rest, "slotId"@));
    lemma_remove_key_absent(a.rest, "slotId"@);
    let out = seq![("slotId"@, JVal::Str(a.slot_id))] + a.rest;
    assert(encode_assignment(a)->Obj_0 =~= out);
    lemma_cons_unique(("slotId"@, JVal::Str(a.slot_id)), a.rest);
    assert(out.drop_first() =~= a.rest);
    assert forall|k: Seq<char>| has_key(out, k) <==> has_key(e, k) by {
        lemma_has_key_unfold(out, k);
    }
    assert forall|i: int| 0 <= i < out.len() implies lookup(e, (#[trigger] out[i]).0) is Some
        && jeq(out[i].1, lookup(e, out[i].0)->Some_0) by {
        if i == 0 {
            assert(lookup(e, "slotId"@) == Some(JVal::Str(a.slot_id)));
        } else {
            let entry = a.rest[i - 1];
            if entry.0 == "slotId"@ {
                assert(has_key(a.rest, "slotId"@));
            }
            lemma_lookup_at(a.rest, entry.0, i - 1);
            assert(lookup(e, entry.0) == lookup(a.rest, entry.0));
            lemma_remove_key_entry_of(e, "slotId"@, i - 1);
            let m = choose|m: int| 0 <= m < e.len() && e[m] == remove_key(e, "slotId"@)[i - 1];
            assert(jwf(e[m].1));
            lemma_jeq_refl(entry.1);
        }
    }
    assert(jeq(JVal::Obj(out), v));
}

/// Decoding a list of assignment objects and encoding each result
/// reproduces the list, element by element.
pub proof fn lemma_assignment_list_decode_encode(items: Seq<JVal>)
    requires
        forall|i: int| 0 <= i < items.len() ==> jwf(#[trigger] items[i]),
        decode_assignment_list(items) is Ok,
    ensures
        decode_assignment_list(items)->Ok_0.len() == items.len(),
        forall|i: int|
            0 <= i < items.len() ==> jeq(
                encode_assignment(decode_assignment_list(items)->Ok_0[i]),
                #[trigger] items[i],
            ),
        forall|i: int|
            0 <= i < items.len() ==> (#[trigger] decode_assignment_list(items)->Ok_0[i]).wf(),
    decreases items.len(),
{
    if items.len() > 0 {
        let xs = decode_assignment_list(items)->Ok_0;
        lemma_assignment_decode_encode(items[0]);
        lemma_assignment_list_decode_encode(items.drop_first());
        let tail = decode_assignment_list(items.drop_first())->Ok_0;
        assert(xs == seq![decode_assignment(items[0])->Ok_0] + tail);
        assert forall|i: int| 0 <= i < items.len() implies jeq(
            encode_assignment(xs[i]),
            #[trigger] items[i],
        ) by {
            if i > 0 {
                assert(xs[i] == tail[i - 1]);
                assert(items[i] == items.drop_first()[i - 1]);
            }
        }
        assert forall|i: int| 0 <= i < items.len() implies (#[trigger] xs[i]).wf() by {
            if i > 0 {
                assert(xs[i] == tail[i - 1]);
            }
        }
    }
}

/// Decoding a profile object and encoding the result reproduces it, up to
/// entry order.
pub proof fn lemma_profile_decode_encode(v: JVal)
    requires
        jwf(v),
        decode_profile(v) is Ok,
    ensures
        jeq(encode_profile(decode_profile(v)->Ok_0), v),
        decode_profile(v)->Ok_0.wf(),
{
    let e = v->Obj_0;
    let p = decode_profile(v)->Ok_0;
    lemma_remove_key_props(e, "assignments"@);
    lemma_lookup_has_key(e, "assignments"@);
    let items = lookup(e, "assignments"@)->Some_0->Arr_0;
    assert(p.rest == remove_key(e, "assignments"@));
    assert(!has_key(p.rest, "assignments"@));
    lemma_remove_key_absent(p.rest, "assignments"@);
    let arr = JVal::Arr(p.assignments.map_values(|a: AssignmentV| encode_assignment(a)));
    let out = seq![("assignments"@, arr)] + p.rest;
    assert(encode_profile(p)->Obj_0 =~= out);
    lemma_cons_unique(("assignments"@, arr), p.rest);
    assert(out.drop_first() =~= p.rest);
    assert forall|k: Seq<char>| has_key(out, k) <==> has_key(e, k) by {
        lemma_has_key_unfold(out, k);
    }
    // the encoded assignment array matches the original one element by
    // element
    lemma_lookup_entry(e, "assignments"@);
    let m0 = choose|m: int|
        0 <= m < e.len() && (#[trigger] e[m]).0 == "assignments"@ && e[m].1 == lookup(
            e,
            "assignments"@,
        )->Some_0;
    assert(jwf(e[m0].1));
    assert(jwf(JVal::Arr(items)));
    assert forall|i: int| 0 <= i < items.len() implies jwf(#[trigger] items[i]) by {}
    lemma_assignment_list_decode_encode(items);
    assert(p.assignments == decode_assignment_list(items)->Ok_0);
    assert(jeq(arr, JVal::Arr(items))) by {
        let mapped = p.assignments.map_values(|a: AssignmentV| encode_assignment(a));
        assert(mapped.len() == items.len());
        assert forall|i: int| 0 <= i < mapped.len() implies jeq(
            #[trigger] mapped[i],
            items[i],
        ) by {
            assert(mapped[i] == encode_assignment(p.assignments[i]));
        }
    }
    assert forall|i: int| 0 <= i < out.len() implies lookup(e, (#[trigger] out[i]).0) is Some
        && jeq(out[i].1, lookup(e, out[i].0)->Some_0) by {
        if i == 0 {
            assert(lookup(e, "assignments"@) == Some(JVal::Arr(items)));
        } else {
            let entry = p.rest[i - 1];
            if entry.0 == "assignments"@ {
                assert(has_key(p.rest, "assignments"@));
            }
            lemma_lookup_at(p.rest, entry.0, i - 1);
            assert(lookup(e, entry.0) == lookup(p.rest, entry.0));
            lemma_remove_key_entry_of(e, "assignments"@, i - 1);
            let m = choose|m: int|
                0 <= m < e.len() && e[m] == remove_key(e, "assignments"@)[i - 1];
            assert(jwf(e[m].1));
            lemma_jeq_refl(entry.1);
        }
    }
    assert(jeq(JVal::Obj(out), v));
}

pub proof fn lemma_has_key_concat(a: Seq<(Seq<char>, JVal)>, b: Seq<(Seq<char>, JVal)>)
    ensures
        forall|k: Seq<char>| has_key(a + b, k) <==> (has_key(a, k) || has_key(b, k)),
{
    assert forall|k: Seq<char>| has_key(a + b, k) implies (has_key(a, k) || has_key(b, k)) by {
        let i = choose|i: int| 0 <= i < (a + b).len() && (a + b)[i].0 == k;
        if i < a.len() {
            assert(a[i].0 == k);
        } else {
            assert(b[i - a.len()].0 == k);
        }
    }
    assert forall|k: Seq<char>| has_key(a, k) || has_key(b, k) implies has_key(a + b, k) by {
        if has_key(a, k) {
            let i = choose|i: int| 0 <= i < a.len() && a[i].0 == k;
            assert((a + b)[i].0 == k);
        } else {
            let i = choose|i: int| 0 <= i < b.len() && b[i].0 == k;
            assert((a + b)[a.len() + i].0 == k);
        }
    }
}

/// The four field names of a connected-device record are pairwise
/// distinct.
pub proof fn lemma_device_keys_distinct()
    ensures
        "connectionType"@ != "deviceModel"@,
        "connectionType"@ != "deviceType"@,
        "connectionType"@ != "slotPrefix"@,
        "deviceModel"@ != "deviceType"@,
        "deviceModel"@ != "slotPrefix"@,
        "deviceType"@ != "slotPrefix"@,
{
    reveal_strlit("connectionType");
    reveal_strlit("deviceModel");
    reveal_strlit("deviceType");
    reveal_strlit("slotPrefix");
    assert("connectionType"@.len() == 14);
    assert("deviceModel"@.len() == 11);
    assert("deviceType"@.len() == 10);
    assert("slotPrefix"@.len() == 10);
    assert("deviceType"@[0] == 'd' && "slotPrefix"@[0] == 's');
    if "deviceType"@ == "slotPrefix"@ {
        assert("deviceType"@[0] == "slotPrefix"@[0]);
    }
}

/// Decoding a connected-device record and encoding the result reproduces
/// it, up to entry order.
pub proof fn lemma_connected_device_decode_encode(v: JVal)
    requires
        jwf(v),
        decode_connected_device(v) is Ok,
    ensures
        jeq(encode_connected_device(decode_connected_device(v)->Ok_0), v),
        decode_connected_device(v)->Ok_0.wf(),
{
    lemma_device_keys_distinct();
    let e0 = v->Obj_0;
    let d = decode_connected_device(v)->Ok_0;
    lemma_remove_key_props(e0, "connectionType"@);
    lemma_lookup_has_key(e0, "connectionType"@);
    let e1 = remove_key(e0, "connectionType"@);
    lemma_remove_key_props(e1, "deviceModel"@);
    lemma_lookup_has_key(e1, "deviceModel"@);
    let e2 = remove_key(e1, "deviceModel"@);
    lemma_remove_key_props(e2, "deviceType"@);
    lemma_lookup_has_key(e2, "deviceType"@);
    let e3 = remove_key(e2, "deviceType"@);
    lemma_remove_key_props(e3, "slotPrefix"@);
    lemma_lookup_has_key(e3, "slotPrefix"@);
    let e4 = remove_key(e3, "slotPrefix"@);
    assert(d.rest == e4);
    assert(!has_key(e4, "connectionType"@));
    assert(!has_key(e4, "deviceModel"@));
    assert(!has_key(e4, "deviceType"@));
    assert(!has_key(e4, "slotPrefix"@));
    // the strips on the encoding side change nothing
    lemma_remove_key_absent(d.rest, "connectionType"@);
    let r1 = remove_key(d.rest, "connectionType"@);
    assert(r1 =~= d.rest);
    lemma_remove_key_absent(r1, "deviceModel"@);
    let r2 = remove_key(r1, "deviceModel"@);
    assert(r2 =~= d.rest);
    lemma_remove_key_absent(r2, "deviceType"@);
    let r3 = remove_key(r2, "deviceType"@);
    assert(r3 =~= d.rest);
    lemma_remove_key_absent(r3, "slotPrefix"@);
    assert(remove_key(r3, "slotPrefix"@) =~= d.rest);
    let ctj = match d.connection_type {
        Some(s) => JVal::Str(s),
        None => JVal::Null,
    };
    assert(lookup(e0, "connectionType"@) == Some(ctj));
    let typed = seq![
        ("connectionType"@, ctj),
        ("deviceModel"@, JVal::Str(d.device_model)),
        ("deviceType"@, JVal::Str(d.device_type)),
        ("slotPrefix"@, JVal::Str(d.slot_prefix)),
    ];
    let out = typed + d.rest;
    assert(encode_connected_device(d)->Obj_0 =~= out);
    assert(keys_unique(typed));
    assert forall|k: Seq<char>| has_key(typed, k) implies (k == "connectionType"@ || k
        == "deviceModel"@ || k == "deviceType"@ || k == "slotPrefix"@) by {
        let i = choose|i: int| 0 <= i < typed.len() && typed[i].0 == k;
    }
    assert(has_key(typed, "connectionType"@)) by {
        assert(typed[0].0 == "connectionType"@);
    }
    assert(has_key(typed, "deviceModel"@)) by {
        assert(typed[1].0 == "deviceModel"@);
    }
    assert(has_key(typed, "deviceType"@)) by {
        assert(typed[2].0 == "deviceType"@);
    }
    assert(has_key(typed, "slotPrefix"@)) by {
        assert(typed[3].0 == "slotPrefix"@);
    }
    lemma_concat_unique(typed, d.rest);
    lemma_has_key_concat(typed, d.rest);
    // the typed values stand in the original object
    assert(lookup(e0, "deviceModel"@) == Some(JVal::Str(d.device_model)));
    assert(lookup(e0, "deviceType"@) == lookup(e1, "deviceType"@));
    assert(lookup(e0, "deviceType"@) == Some(JVal::Str(d.device_type)));
    assert(lookup(e0, "slotPrefix"@) == lookup(e1, "slotPrefix"@));
    assert(lookup(e1, "slotPrefix"@) == lookup(e2, "slotPrefix"@));
    assert(lookup(e0, "slotPrefix"@) == Some(JVal::Str(d.slot_prefix)));
    // same key set
    assert forall|k: Seq<char>| has_key(out, k) <==> has_key(e0, k) by {}
    // each entry of the encoding has the original's value for its key
    assert forall|i: int| 0 <= i < out.len() implies lookup(e0, (#[trigger] out[i]).0) is Some
        && jeq(out[i].1, lookup(e0, out[i].0)->Some_0) by {
        if i >= 4 {
            let entry = d.rest[i - 4];
            lemma_lookup_at(d.rest, entry.0, i - 4);
            assert(lookup(e0, entry.0) == lookup(e4, entry.0));
            lemma_remove_key_entry_of(e3, "slotPrefix"@, i - 4);
            let m3 = choose|m: int| 0 <= m < e3.len() && e3[m] == e4[i - 4];
            lemma_remove_key_entry_of(e2, "deviceType"@, m3);
            let m2 = choose|m: int| 0 <= m < e2.len() && e2[m] == e3[m3];
            lemma_remove_key_entry_of(e1, "deviceModel"@, m2);
            let m1 = choose|m: int| 0 <= m < e1.len() && e1[m] == e2[m2];
            lemma_remove_key_entry_of(e0, "connectionType"@, m1);
            let m0 = choose|m: int| 0 <= m < e0.len() && e0[m] == e1[m1];
            assert(jwf(e0[m0].1));
            lemma_jeq_refl(entry.1);
        }
    }
    assert(jeq(JVal::Obj(out), v));
}

/// Decoding a migration-report record and encoding the result reproduces
/// it, up to entry order.
pub proof fn lemma_migration_device_decode_encode(v: JVal)
    requires
        jwf(v),
        decode_migration_device(v) is Ok,
    ensures
        jeq(encode_migration_device(decode_migration_device(v)->Ok_0), v),
        decode_migration_device(v)->Ok_0.wf(),
{
    reveal_strlit("deviceName");
    reveal_strlit("modelId");
    let e0 = v->Obj_0;
    let d = decode_migration_device(v)->Ok_0;
    lemma_remove_key_props(e0, "deviceName"@);
    lemma_lookup_has_key(e0, "deviceName"@);
    let e1 = remove_key(e0, "deviceName"@);
    lemma_remove_key_props(e1, "modelId"@);
    lemma_lookup_has_key(e1, "modelId"@);
    let e2 = remove_key(e1, "modelId"@);
    assert(d.rest == e2);
    assert(!has_key(e2, "deviceName"@));
    assert(!has_key(e2, "modelId"@));
    lemma_remove_key_absent(d.rest, "deviceName"@);
    let r1 = remove_key(d.rest, "deviceName"@);
    assert(r1 =~= d.rest);
    lemma_remove_key_absent(r1, "modelId"@);
    assert(remove_key(r1, "modelId"@) =~= d.rest);
    let typed = seq![
        ("deviceName"@, JVal::Str(d.device_name)),
        ("modelId"@, JVal::Str(d.model_id)),
    ];
    let out = typed + d.rest;
    assert(encode_migration_device(d)->Obj_0 =~= out);
    assert(keys_unique(typed));
    assert forall|k: Seq<char>| has_key(typed, k) implies (k == "deviceName"@ || k
        == "modelId"@) by {
        let i = choose|i: int| 0 <= i < typed.len() && typed[i].0 == k;
    }
    assert(has_key(typed, "deviceName"@)) by {
        assert(typed[0].0 == "deviceName"@);
    }
    assert(has_key(typed, "modelId"@)) by {
        assert(typed[1].0 == "modelId"@);
    }
    lemma_concat_unique(typed, d.rest);
    lemma_has_key_concat(typed, d.rest);
    assert(lookup(e0, "deviceName"@) == Some(JVal::Str(d.device_name)));
    assert(lookup(e0, "modelId"@) == lookup(e1, "modelId"@));
    assert(lookup(e0, "modelId"@) == Some(JVal::Str(d.model_id)));
    assert forall|k: Seq<char>| has_key(out, k) <==> has_key(e0, k) by {}
    assert forall|i: int| 0 <= i < out.len() implies lookup(e0, (#[trigger] out[i]).0) is Some
        && jeq(out[i].1, lookup(e0, out[i].0)->Some_0) by {
        if i >= 2 {
            let entry = d.rest[i - 2];
            lemma_lookup_at(d.rest, entry.0, i - 2);
            assert(lookup(e0, entry.0) == lookup(e2, entry.0));
            lemma_remove_key_entry_of(e1, "modelId"@, i - 2);
            let m1 = choose|m: int| 0 <= m < e1.len() && e1[m] == e2[i - 2];
            lemma_remove_key_entry_of(e0, "deviceName"@, m1);
            let m0 = choose|m: int| 0 <= m < e0.len() && e0[m] == e1[m1];
            assert(jwf(e0[m0].1));
            lemma_jeq_refl(entry.1);
        }
    }
    assert(jeq(JVal::Obj(out), v));
}

/// Decoding a list of connected-device objects and encoding each result
/// reproduces the list, element by element.
pub proof fn lemma_connected_device_list_decode_encode(items: Seq<JVal>)
    requires
        forall|i: int| 0 <= i < items.len() ==> jwf(#[trigger] items[i]),
        decode_connected_device_list(items) is Ok,
    ensures
        decode_connected_device_list(items)->Ok_0.len() == items.len(),
        forall|i: int|
            0 <= i < items.len() ==> jeq(
                encode_connected_device(decode_connected_device_list(items)->Ok_0[i]),
                #[trigger] items[i],
            ),
        forall|i: int|
            0 <= i < items.len() ==> (#[trigger] decode_connected_device_list(
                items,
            )->Ok_0[i]).wf(),
    decreases items.len(),
{
    if items.len() > 0 {
        let xs = decode_connected_device_list(items)->Ok_0;
        lemma_connected_device_decode_encode(items[0]);
        lemma_connected_device_list_decode_encode(items.drop_first());
        let tail = decode_connected_device_list(items.drop_first())->Ok_0;
        assert(xs == seq![decode_connected_device(items[0])->Ok_0] + tail);
        assert forall|i: int| 0 <= i < items.len() implies jeq(
            encode_connected_device(xs[i]),
            #[trigger] items[i],
        ) by {
            if i > 0 {
                assert(xs[i] == tail[i - 1]);
                assert(items[i] == items.drop_first()[i - 1]);
            }
        }
        assert forall|i: int| 0 <= i < items.len() implies (#[trigger] xs[i]).wf() by {
            if i > 0 {
                assert(xs[i] == tail[i - 1]);
            }
        }
    }
}

/// Decoding a list of migration-report records and encoding each result
/// reproduces the list, element by element.
pub proof fn lemma_migration_device_list_decode_encode(items: Seq<JVal>)
    requires
        forall|i: int| 0 <= i < items.len() ==> jwf(#[trigger] items[i]),
        decode_migration_device_list(items) is Ok,
    ensures
        decode_migration_device_list(items)->Ok_0.len() == items.len(),
        forall|i: int|
            0 <= i < items.len() ==> jeq(
                encode_migration_device(decode_migration_device_list(items)->Ok_0[i]),
                #[trigger] items[i],
            ),
        forall|i: int|
            0 <= i < items.len() ==> (#[trigger] decode_migration_device_list(
                items,
            )->Ok_0[i]).wf(),
    decreases items.len(),
{
    if items.len() > 0 {
        let xs = decode_migration_device_list(items)->Ok_0;
        lemma_migration_device_decode_encode(items[0]);
        lemma_migration_device_list_decode_encode(items.drop_first());
        let tail = decode_migration_device_list(items.drop_first())->Ok_0;
        assert(xs == seq![decode_migration_device(items[0])->Ok_0] + tail);
        assert forall|i: int| 0 <= i < items.len() implies jeq(
            encode_migration_device(xs[i]),
            #[trigger] items[i],
        ) by {
            if i > 0 {
                assert(xs[i] == tail[i - 1]);
                assert(items[i] == items.drop_first()[i - 1]);
            }
        }
        assert forall|i: int| 0 <= i < items.len() implies (#[trigger] xs[i]).wf() by {
            if i > 0 {
                assert(xs[i] == tail[i - 1]);
            }
        }
    }
}

/// Decoding the device history and encoding the result reproduces it, up
/// to entry order.
pub proof fn lemma_ever_connected_devices_decode_encode(v: JVal)
    requires
        jwf(v),
        decode_ever_connected_devices(v) is Ok,
    ensures
        jeq(
            encode_ever_connected_devices(decode_ever_connected_devices(v)->Ok_0),
            v,
        ),
        decode_ever_connected_devices(v)->Ok_0.wf(),
{
    let e = v->Obj_0;
    let d = decode_ever_connected_devices(v)->Ok_0;
    lemma_remove_key_props(e, "devices"@);
    lemma_lookup_has_key(e, "devices"@);
    let items = lookup(e, "devices"@)->Some_0->Arr_0;
    assert(d.rest == remove_key(e, "devices"@));
    assert(!has_key(d.rest, "devices"@));
    lemma_remove_key_absent(d.rest, "devices"@);
    let arr = JVal::Arr(d.devices.map_values(|x: ConnectedDeviceV| encode_connected_device(x)));
    let out = seq![("devices"@, arr)] + d.rest;
    assert(encode_ever_connected_devices(d)->Obj_0 =~= out);
    lemma_cons_unique(("devices"@, arr), d.rest);
    assert(out.drop_first() =~= d.rest);
    assert forall|k: Seq<char>| has_key(out, k) <==> has_key(e, k) by {
        lemma_has_key_unfold(out, k);
    }
    lemma_lookup_entry(e, "devices"@);
    let m0 = choose|m: int|
        0 <= m < e.len() && (#[trigger] e[m]).0 == "devices"@ && e[m].1 == lookup(
            e,
            "devices"@,
        )->Some_0;
    assert(jwf(e[m0].1));
    assert(jwf(JVal::Arr(items)));
    assert forall|i: int| 0 <= i < items.len() implies jwf(#[trigger] items[i]) by {}
    lemma_connected_device_list_decode_encode(items);
    assert(d.devices == decode_connected_device_list(items)->Ok_0);
    assert(jeq(arr, JVal::Arr(items))) by {
        let mapped = d.devices.map_values(|x: ConnectedDeviceV| encode_connected_device(x));
        assert(mapped.len() == items.len());
        assert forall|i: int| 0 <= i < mapped.len() implies jeq(
            #[trigger] mapped[i],
            items[i],
        ) by {
            assert(mapped[i] == encode_connected_device(d.devices[i]));
        }
    }
    assert forall|i: int| 0 <= i < out.len() implies lookup(e, (#[trigger] out[i]).0) is Some
        && jeq(out[i].1, lookup(e, out[i].0)->Some_0) by {
        if i == 0 {
            assert(lookup(e, "devices"@) == Some(JVal::Arr(items)));
        } else {
            let entry = d.rest[i - 1];
            if entry.0 == "devices"@ {
                assert(has_key(d.rest, "devices"@));
            }
            lemma_lookup_at(d.rest, entry.0, i - 1);
            assert(lookup(e, entry.0) == lookup(d.rest, entry.0));
            lemma_remove_key_entry_of(e, "devices"@, i - 1);
            let m = choose|m: int| 0 <= m < e.len() && e[m] == remove_key(e, "devices"@)[i - 1];
            assert(jwf(e[m].1));
            lemma_jeq_refl(entry.1);
        }
    }
    assert(jeq(JVal::Obj(out), v));
}

/// Decoding the migration report and encoding the result reproduces it, up
/// to entry order.
pub proof fn lemma_migration_report_decode_encode(v: JVal)
    requires
        jwf(v),
        decode_migration_report(v) is Ok,
    ensures
        jeq(encode_migration_report(decode_migration_report(v)->Ok_0), v),
        decode_migration_report(v)->Ok_0.wf(),
{
    let e = v->Obj_0;
    let d = decode_migration_report(v)->Ok_0;
    lemma_remove_key_props(e, "devices"@);
    lemma_lookup_has_key(e, "devices"@);
    let items = lookup(e, "devices"@)->Some_0->Arr_0;
    assert(d.rest == remove_key(e, "devices"@));
    assert(!has_key(d.rest, "devices"@));
    lemma_remove_key_absent(d.rest, "devices"@);
    let arr = JVal::Arr(d.devices.map_values(|x: MigrationDeviceV| encode_migration_device(x)));
    let out = seq![("devices"@, arr)] + d.rest;
    assert(encode_migration_report(d)->Obj_0 =~= out);
    lemma_cons_unique(("devices"@, arr), d.rest);
    assert(out.drop_first() =~= d.rest);
    assert forall|k: Seq<char>| has_key(out, k) <==> has_key(e, k) by {
        lemma_has_key_unfold(out, k);
    }
    lemma_lookup_entry(e, "devices"@);
    let m0 = choose|m: int|
        0 <= m < e.len() && (#[trigger] e[m]).0 == "devices"@ && e[m].1 == lookup(
            e,
            "devices"@,
        )->Some_0;
    assert(jwf(e[m0].1));
    assert(jwf(JVal::Arr(items)));
    assert forall|i: int| 0 <= i < items.len() implies jwf(#[trigger] items[i]) by {}
    lemma_migration_device_list_decode_encode(items);
    assert(d.devices == decode_migration_device_list(items)->Ok_0);
    assert(jeq(arr, JVal::Arr(items))) by {
        let mapped = d.devices.map_values(|x: MigrationDeviceV| encode_migration_device(x));
        assert(mapped.len() == items.len());
        assert forall|i: int| 0 <= i < mapped.len() implies jeq(
            #[trigger] mapped[i],
            items[i],
        ) by {
            assert(mapped[i] == encode_migration_device(d.devices[i]));
        }
    }
    assert forall|i: int| 0 <= i < out.len() implies lookup(e, (#[trigger] out[i]).0) is Some
        && jeq(out[i].1, lookup(e, out[i].0)->Some_0) by {
        if i == 0 {
            assert(lookup(e, "devices"@) == Some(JVal::Arr(items)));
        } else {
            let entry = d.rest[i - 1];
            if entry.0 == "devices"@ {
                assert(has_key(d.rest, "devices"@));
            }
            lemma_lookup_at(d.rest, entry.0, i - 1);
            assert(lookup(e, entry.0) == lookup(d.rest, entry.0));
            lemma_remove_key_entry_of(e, "devices"@, i - 1);
            let m = choose|m: int| 0 <= m < e.len() && e[m] == remove_key(e, "devices"@)[i - 1];
            assert(jwf(e[m].1));
            lemma_jeq_refl(entry.1);
        }
    }
    assert(jeq(JVal::Obj(out), v));
}

/// One string of the profile-key list decodes to exactly itself.
pub proof fn lemma_profile_name_list_exact(items: Seq<JVal>)
    requires
        decode_profile_name_list(items) is Ok,
    ensures
        decode_profile_name_list(items)->Ok_0.len() == items.len(),
        forall|i: int|
            0 <= i < items.len() ==> #[trigger] items[i] == JVal::Str(
                decode_profile_name_list(items)->Ok_0[i],
            ),
    decreases items.len(),
{
    if items.len() > 0 {
        lemma_profile_name_list_exact(items.drop_first());
        let ks = decode_profile_name_list(items)->Ok_0;
        let tail = decode_profile_name_list(items.drop_first())->Ok_0;
        assert(ks == seq![decode_profile_name(items[0])->Ok_0] + tail);
        assert forall|i: int| 0 <= i < items.len() implies #[trigger] items[i] == JVal::Str(
            ks[i],
        ) by {
            if i > 0 {
                assert(items[i] == items.drop_first()[i - 1]);
                assert(ks[i] == tail[i - 1]);
            }
        }
    }
}

/// What a successful promotion did: one profile per name, in order; the
/// names were distinct; every name's body was found in the bag and
/// decoded; the remainder keeps exactly the other keys, values untouched.
pub proof fn lemma_promote_props(bag: Seq<(Seq<char>, JVal)>, keys: Seq<Seq<char>>)
    requires
        keys_unique(bag),
        forall|i: int| 0 <= i < bag.len() ==> jwf((#[trigger] bag[i]).1),
        promote(bag, keys) is Ok,
    ensures
        promote(bag, keys)->Ok_0.0.len() == keys.len(),
        forall|i: int|
            0 <= i < keys.len() ==> (#[trigger] promote(bag, keys)->Ok_0.0[i]).0 == keys[i],
        forall|i: int, j: int| 0 <= i < j < keys.len() ==> keys[i] != keys[j],
        keys_unique(promote(bag, keys)->Ok_0.1),
        forall|i: int|
            0 <= i < promote(bag, keys)->Ok_0.1.len() ==> jwf(
                (#[trigger] promote(bag, keys)->Ok_0.1[i]).1,
            ),
        forall|k: Seq<char>|
            has_key(promote(bag, keys)->Ok_0.1, k) <==> (has_key(bag, k) && !keys.contains(k)),
        forall|k: Seq<char>|
            !keys.contains(k) ==> lookup(promote(bag, keys)->Ok_0.1, k) == lookup(bag, k),
        forall|i: int| 0 <= i < keys.len() ==> lookup(bag, #[trigger] keys[i]) is Some,
        forall|i: int|
            0 <= i < keys.len() ==> jeq(
                encode_profile(promote(bag, keys)->Ok_0.0[i].1),
                lookup(bag, #[trigger] keys[i])->Some_0,
            ),
        forall|i: int| 0 <= i < keys.len() ==> (#[trigger] promote(bag, keys)->Ok_0.0[i]).1.wf(),
    decreases keys.len(),
{
    let ps = promote(bag, keys)->Ok_0.0;
    let rest = promote(bag, keys)->Ok_0.1;
    if keys.len() == 0 {
        assert(rest == bag);
        assert forall|k: Seq<char>| !keys.contains(k) by {
            if keys.contains(k) {
                let i = choose|i: int| 0 <= i < keys.len() && keys[i] == k;
            }
        }
    } else {
        let k0 = keys[0];
        let tail = keys.drop_first();
        let pv = lookup(bag, k0)->Some_0;
        lemma_lookup_entry(bag, k0);
        let m = choose|m: int|
            0 <= m < bag.len() && (#[trigger] bag[m]).0 == k0 && bag[m].1 == pv;
        assert(jwf(pv));
        lemma_profile_decode_encode(pv);
        lemma_remove_key_props(bag, k0);
        let bag2 = remove_key(bag, k0);
        assert forall|i: int| 0 <= i < bag2.len() implies jwf((#[trigger] bag2[i]).1) by {
            lemma_remove_key_entry_of(bag, k0, i);
            let n = choose|n: int| 0 <= n < bag.len() && bag[n] == bag2[i];
            assert(jwf(bag[n].1));
        }
        lemma_promote_props(bag2, tail);
        let sub = promote(bag2, tail)->Ok_0;
        assert(ps == seq![(k0, decode_profile(pv)->Ok_0)] + sub.0);
        assert(rest == sub.1);
        // the head name never comes back among the tail names
        assert forall|j: int| 0 <= j < tail.len() implies tail[j] != k0 by {
            assert(lookup(bag2, tail[j]) is Some);
            crate::json::lemma_lookup_has_key(bag2, tail[j]);
            assert(!has_key(bag2, k0));
        }
        assert forall|i: int, j: int| 0 <= i < j < keys.len() implies keys[i] != keys[j] by {
            if i > 0 {
                assert(keys[i] == tail[i - 1] && keys[j] == tail[j - 1]);
            } else {
                assert(keys[j] == tail[j - 1]);
            }
        }
        // membership in the whole key list
        assert forall|k: Seq<char>| keys.contains(k) implies (k == k0 || tail.contains(k)) by {
            let i = choose|i: int| 0 <= i < keys.len() && keys[i] == k;
            if i > 0 {
                assert(tail[i - 1] == k);
            }
        }
        assert forall|k: Seq<char>| tail.contains(k) implies keys.contains(k) by {
            let i = choose|i: int| 0 <= i < tail.len() && tail[i] == k;
            assert(keys[i + 1] == k);
        }
        assert(keys.contains(k0)) by {
            assert(keys[0] == k0);
        }
        assert forall|k: Seq<char>| has_key(rest, k) implies (has_key(bag, k) && !keys.contains(
            k,
        )) by {
            assert(has_key(bag2, k) && !tail.contains(k));
        }
        assert forall|k: Seq<char>| has_key(bag, k) && !keys.contains(k) implies has_key(
            rest,
            k,
        ) by {
            assert(k != k0);
            assert(has_key(bag2, k));
        }
        assert forall|k: Seq<char>| !keys.contains(k) implies lookup(rest, k) == lookup(
            bag,
            k,
        ) by {
            assert(k != k0);
            assert(lookup(bag2, k) == lookup(bag, k));
        }
        assert forall|i: int| 0 <= i < keys.len() implies lookup(bag, #[trigger] keys[i])
            is Some && jeq(encode_profile(ps[i].1), lookup(bag, keys[i])->Some_0) by {
            if i > 0 {
                assert(keys[i] == tail[i - 1]);
                assert(ps[i] == sub.0[i - 1]);
                assert(tail[i - 1] != k0);
                assert(lookup(bag, keys[i]) == lookup(bag2, tail[i - 1]));
                assert(jeq(encode_profile(sub.0[i - 1].1), lookup(bag2, tail[i - 1])->Some_0));
            }
        }
        assert forall|i: int| 0 <= i < keys.len() implies (#[trigger] ps[i]).0 == keys[i] by {
            if i > 0 {
                assert(ps[i] == sub.0[i - 1]);
            }
        }
        assert forall|i: int| 0 <= i < keys.len() implies (#[trigger] ps[i]).1.wf() by {
            if i > 0 {
                assert(ps[i] == sub.0[i - 1]);
            }
        }
    }
}

/// The three field names of the top level are pairwise distinct.
pub proof fn lemma_settings_keys_distinct()
    ensures
        "profile_keys"@ != "ever_connected_devices"@,
        "profile_keys"@ != "migration_report"@,
        "ever_connected_devices"@ != "migration_report"@,
{
    reveal_strlit("profile_keys");
    reveal_strlit("ever_connected_devices");
    reveal_strlit("migration_report");
    assert("profile_keys"@.len() == 12);
    assert("ever_connected_devices"@.len() == 22);
    assert("migration_report"@.len() == 16);
}

/// Round trip: decoding a well-formed settings document and encoding the
/// result reproduces a structurally equivalent document — the same keys
/// with the same values at every depth, profiles re-flattened under their
/// names, the remainder untouched; only the order of an object's entries
/// may differ.
pub proof fn lemma_decode_encode_settings(v: JVal)
    requires
        jwf(v),
        decode_settings(v) is Ok,
    ensures
        jeq(encode_settings(decode_settings(v)->Ok_0), v),
{
    lemma_settings_keys_distinct();
    let e0 = v->Obj_0;
    let s = decode_settings(v)->Ok_0;
    lemma_remove_key_props(e0, "profile_keys"@);
    lemma_lookup_has_key(e0, "profile_keys"@);
    let items = lookup(e0, "profile_keys"@)->Some_0->Arr_0;
    let e1 = remove_key(e0, "profile_keys"@);
    lemma_remove_key_props(e1, "ever_connected_devices"@);
    lemma_lookup_has_key(e1, "ever_connected_devices"@);
    let ecdv = lookup(e1, "ever_connected_devices"@)->Some_0;
    let e2 = remove_key(e1, "ever_connected_devices"@);
    lemma_remove_key_props(e2, "migration_report"@);
    lemma_lookup_has_key(e2, "migration_report"@);
    let mrv = lookup(e2, "migration_report"@)->Some_0;
    let e3 = remove_key(e2, "migration_report"@);
    lemma_profile_name_list_exact(items);
    assert(s.profile_keys == decode_profile_name_list(items)->Ok_0);
    assert(s.profiles == promote(e3, s.profile_keys)->Ok_0.0);
    assert(s.rest == promote(e3, s.profile_keys)->Ok_0.1);
    // the stage bags keep well-formed values
    assert forall|i: int| 0 <= i < e1.len() implies jwf((#[trigger] e1[i]).1) by {
        lemma_remove_key_entry_of(e0, "profile_keys"@, i);
        let n = choose|n: int| 0 <= n < e0.len() && e0[n] == e1[i];
        assert(jwf(e0[n].1));
    }
    assert forall|i: int| 0 <= i < e2.len() implies jwf((#[trigger] e2[i]).1) by {
        lemma_remove_key_entry_of(e1, "ever_connected_devices"@, i);
        let n = choose|n: int| 0 <= n < e1.len() && e1[n] == e2[i];
        assert(jwf(e1[n].1));
    }
    assert forall|i: int| 0 <= i < e3.len() implies jwf((#[trigger] e3[i]).1) by {
        lemma_remove_key_entry_of(e2, "migration_report"@, i);
        let n = choose|n: int| 0 <= n < e2.len() && e2[n] == e3[i];
        assert(jwf(e2[n].1));
    }
    lemma_promote_props(e3, s.profile_keys);
    let keys = s.profile_keys;
    // the two nested documents round-trip
    lemma_lookup_entry(e1, "ever_connected_devices"@);
    assert(jwf(ecdv)) by {
        let n = choose|n: int|
            0 <= n < e1.len() && (#[trigger] e1[n]).0 == "ever_connected_devices"@ && e1[n].1
                == ecdv;
    }
    lemma_ever_connected_devices_decode_encode(ecdv);
    lemma_lookup_entry(e2, "migration_report"@);
    assert(jwf(mrv)) by {
        let n = choose|n: int|
            0 <= n < e2.len() && (#[trigger] e2[n]).0 == "migration_report"@ && e2[n].1 == mrv;
    }
    lemma_migration_report_decode_encode(mrv);
    // the encoder's defensive strips change nothing
    assert(!has_key(e3, "profile_keys"@));
    assert(!has_key(e3, "ever_connected_devices"@));
    assert(!has_key(e3, "migration_report"@));
    assert(!has_key(s.rest, "profile_keys"@));
    assert(!has_key(s.rest, "ever_connected_devices"@));
    assert(!has_key(s.rest, "migration_report"@));
    lemma_remove_key_absent(s.rest, "profile_keys"@);
    let r1 = remove_key(s.rest, "profile_keys"@);
    assert(r1 =~= s.rest);
    lemma_remove_key_absent(r1, "ever_connected_devices"@);
    let r2 = remove_key(r1, "ever_connected_devices"@);
    assert(r2 =~= s.rest);
    lemma_remove_key_absent(r2, "migration_report"@);
    assert(remove_key(r2, "migration_report"@) =~= s.rest);
    // demotion appends the encoded profiles after the remainder
    assert forall|i: int| 0 <= i < s.profiles.len() implies !has_key(
        s.rest,
        #[trigger] s.profiles[i].0,
    ) by {
        assert(s.profiles[i].0 == keys[i]);
        assert(keys.contains(keys[i]));
    }
    assert forall|i: int, j: int|
        0 <= i < j < s.profiles.len() implies s.profiles[i].0 != s.profiles[j].0 by {
        assert(s.profiles[i].0 == keys[i] && s.profiles[j].0 == keys[j]);
    }
    lemma_demote_appends(s.profiles, s.rest);
    let pe = profile_entries(s.profiles);
    let pkv = JVal::Arr(keys.map_values(|k: Seq<char>| JVal::Str(k)));
    assert(pkv == JVal::Arr(items)) by {
        assert(keys.map_values(|k: Seq<char>| JVal::Str(k)) =~= items);
    }
    let typed = seq![
        ("profile_keys"@, pkv),
        ("ever_connected_devices"@, encode_ever_connected_devices(s.ever_connected_devices)),
        ("migration_report"@, encode_migration_report(s.migration_report)),
    ];
    let out = typed + (s.rest + pe);
    assert(encode_settings(s)->Obj_0 =~= out);
    assert(s.ever_connected_devices == decode_ever_connected_devices(ecdv)->Ok_0);
    assert(s.migration_report == decode_migration_report(mrv)->Ok_0);
    // every profile name bears a body in the bag, so it is none of the
    // typed names
    assert forall|k: Seq<char>| has_key(pe, k) implies keys.contains(k) && has_key(e3, k) by {
        let i = choose|i: int| 0 <= i < pe.len() && pe[i].0 == k;
        assert(pe[i].0 == s.profiles[i].0);
        assert(keys.contains(keys[i]));
        assert(lookup(e3, keys[i]) is Some);
        crate::json::lemma_lookup_has_key(e3, keys[i]);
    }
    assert forall|i: int| 0 <= i < keys.len() implies has_key(e3, #[trigger] keys[i]) by {
        crate::json::lemma_lookup_has_key(e3, keys[i]);
    }
    assert(keys_unique(pe)) by {
        assert forall|i: int, j: int| 0 <= i < j < pe.len() implies pe[i].0 != pe[j].0 by {
            assert(pe[i].0 == s.profiles[i].0 && pe[j].0 == s.profiles[j].0);
        }
    }
    lemma_concat_unique(s.rest, pe);
    lemma_has_key_concat(s.rest, pe);
    assert(keys_unique(typed));
    assert forall|k: Seq<char>| has_key(typed, k) implies (k == "profile_keys"@ || k
        == "ever_connected_devices"@ || k == "migration_report"@) by {
        let i = choose|i: int| 0 <= i < typed.len() && typed[i].0 == k;
    }
    assert(has_key(typed, "profile_keys"@)) by {
        assert(typed[0].0 == "profile_keys"@);
    }
    assert(has_key(typed, "ever_connected_devices"@)) by {
        assert(typed[1].0 == "ever_connected_devices"@);
    }
    assert(has_key(typed, "migration_report"@)) by {
        assert(typed[2].0 == "migration_report"@);
    }
    lemma_concat_unique(typed, s.rest + pe);
    lemma_has_key_concat(typed, s.rest + pe);
    // same key set as the original object
    assert forall|k: Seq<char>| has_key(out, k) <==> has_key(e0, k) by {
        if keys.contains(k) {
            let i = choose|i: int| 0 <= i < keys.len() && keys[i] == k;
            assert(pe[i].0 == k);
            assert(has_key(pe, k));
            assert(has_key(e3, k));
        }
    }
    // every entry of the encoding carries the original's value for its key
    assert forall|i: int| 0 <= i < out.len() implies lookup(e0, (#[trigger] out[i]).0) is Some
        && jeq(out[i].1, lookup(e0, out[i].0)->Some_0) by {
        if i == 0 {
            assert(lookup(e0, "profile_keys"@) == Some(JVal::Arr(items)));
            assert(jwf(JVal::Arr(items))) by {
                lemma_lookup_entry(e0, "profile_keys"@);
                let n = choose|n: int|
                    0 <= n < e0.len() && (#[trigger] e0[n]).0 == "profile_keys"@ && e0[n].1
                        == JVal::Arr(items);
            }
            lemma_jeq_refl(JVal::Arr(items));
        } else if i == 1 {
            assert(lookup(e0, "ever_connected_devices"@) == lookup(
                e1,
                "ever_connected_devices"@,
            ));
        } else if i == 2 {
            assert(lookup(e0, "migration_report"@) == lookup(e1, "migration_report"@));
            assert(lookup(e1, "migration_report"@) == lookup(e2, "migration_report"@));
        } else if i < 3 + s.rest.len() {
            let entry = s.rest[i - 3];
            assert(out[i] == (s.rest + pe)[i - 3]);
            assert(has_key(s.rest, entry.0)) by {
                assert(s.rest[i - 3].0 == entry.0);
            }
            assert(entry.0 != "profile_keys"@ && entry.0 != "ever_connected_devices"@ && entry.0
                != "migration_report"@);
            assert(!keys.contains(entry.0));
            lemma_lookup_at(s.rest, entry.0, i - 3);
            assert(lookup(e3, entry.0) == lookup(s.rest, entry.0));
            assert(lookup(e2, entry.0) == lookup(e3, entry.0));
            assert(lookup(e1, entry.0) == lookup(e2, entry.0));
            assert(lookup(e0, entry.0) == lookup(e1, entry.0));
            assert(jwf(entry.1)) by {
                assert(s.rest[i - 3].1 == entry.1);
            }
            lemma_jeq_refl(entry.1);
        } else {
            let j = i - 3 - s.rest.len();
            assert(out[i] == (s.rest + pe)[i - 3]);
            assert((s.rest + pe)[i - 3] == pe[j]);
            assert(pe[j] == (s.profiles[j].0, encode_profile(s.profiles[j].1)));
            assert(s.profiles[j].0 == keys[j]);
            assert(has_key(e3, keys[j]));
            assert(keys[j] != "profile_keys"@ && keys[j] != "ever_connected_devices"@ && keys[j]
                != "migration_report"@);
            assert(lookup(e2, keys[j]) == lookup(e3, keys[j]));
            assert(lookup(e1, keys[j]) == lookup(e2, keys[j]));
            assert(lookup(e0, keys[j]) == lookup(e1, keys[j]));
            assert(jeq(encode_profile(s.profiles[j].1), lookup(e3, keys[j])->Some_0));
        }
    }
    assert(jeq(JVal::Obj(out), v));
}

/// Whatever decodes is consistent: decoding a well-formed document always
/// yields a well-formed value, on which the encode-then-decode inverse
/// holds in turn.
pub proof fn lemma_decode_settings_wf(v: JVal)
    requires
        jwf(v),
        decode_settings(v) is Ok,
    ensures
        decode_settings(v)->Ok_0.wf(),
{
    lemma_settings_keys_distinct();
    let e0 = v->Obj_0;
    let s = decode_settings(v)->Ok_0;
    lemma_remove_key_props(e0, "profile_keys"@);
    lemma_lookup_has_key(e0, "profile_keys"@);
    let e1 = remove_key(e0, "profile_keys"@);
    lemma_remove_key_props(e1, "ever_connected_devices"@);
    lemma_lookup_has_key(e1, "ever_connected_devices"@);
    let ecdv = lookup(e1, "ever_connected_devices"@)->Some_0;
    let e2 = remove_key(e1, "ever_connected_devices"@);
    lemma_remove_key_props(e2, "migration_report"@);
    lemma_lookup_has_key(e2, "migration_report"@);
    let mrv = lookup(e2, "migration_report"@)->Some_0;
    let e3 = remove_key(e2, "migration_report"@);
    assert(s.profiles == promote(e3, s.profile_keys)->Ok_0.0);
    assert(s.rest == promote(e3, s.profile_keys)->Ok_0.1);
    assert forall|i: int| 0 <= i < e1.len() implies jwf((#[trigger] e1[i]).1) by {
        lemma_remove_key_entry_of(e0, "profile_keys"@, i);
        let n = choose|n: int| 0 <= n < e0.len() && e0[n] == e1[i];
        assert(jwf(e0[n].1));
    }
    assert forall|i: int| 0 <= i < e2.len() implies jwf((#[trigger] e2[i]).1) by {
        lemma_remove_key_entry_of(e1, "ever_connected_devices"@, i);
        let n = choose|n: int| 0 <= n < e1.len() && e1[n] == e2[i];
        assert(jwf(e1[n].1));
    }
    assert forall|i: int| 0 <= i < e3.len() implies jwf((#[trigger] e3[i]).1) by {
        lemma_remove_key_entry_of(e2, "migration_report"@, i);
        let n = choose|n: int| 0 <= n < e2.len() && e2[n] == e3[i];
        assert(jwf(e2[n].1));
    }
    lemma_promote_props(e3, s.profile_keys);
    let keys = s.profile_keys;
    assert forall|i: int| 0 <= i < keys.len() implies !has_key(s.rest, #[trigger] keys[i]) by {
        assert(keys.contains(keys[i]));
    }
    lemma_lookup_entry(e1, "ever_connected_devices"@);
    assert(jwf(ecdv)) by {
        let n = choose|n: int|
            0 <= n < e1.len() && (#[trigger] e1[n]).0 == "ever_connected_devices"@ && e1[n].1
                == ecdv;
    }
    lemma_ever_connected_devices_decode_encode(ecdv);
    lemma_lookup_entry(e2, "migration_report"@);
    assert(jwf(mrv)) by {
        let n = choose|n: int|
            0 <= n < e2.len() && (#[trigger] e2[n]).0 == "migration_report"@ && e2[n].1 == mrv;
    }
    lemma_migration_report_decode_encode(mrv);
    assert(!has_key(s.rest, "profile_keys"@));
    assert(!has_key(s.rest, "ever_connected_devices"@));
    assert(!has_key(s.rest, "migration_report"@));
}

// ------------------------------------------------------------------
// Missing-profile failure: a `profile_keys` name with no body in the bag
// makes promotion — and so the whole decode — fail.
// ------------------------------------------------------------------

pub proof fn lemma_missing_profile_fails(bag: Seq<(Seq<char>, JVal)>, keys: Seq<Seq<char>>)
    requires
        keys_unique(bag),
        exists|i: int| 0 <= i < keys.len() && !has_key(bag, #[trigger] keys[i]),
    ensures
        promote(bag, keys) is Err,
    decreases keys.len(),
{
    let i = choose|i: int| 0 <= i < keys.len() && !has_key(bag, #[trigger] keys[i]);
    if i == 0 {
        crate::json::lemma_lookup_has_key(bag, keys[0]);
    } else {
        match lookup(bag, keys[0]) {
            None => {},
            Some(v) => {
                match decode_profile(v) {
                    Err(_) => {},
                    Ok(_) => {
                        crate::json::lemma_remove_key_props(bag, keys[0]);
                        let bag2 = remove_key(bag, keys[0]);
                        let tail = keys.drop_first();
                        assert(tail[i - 1] == keys[i]);
                        if keys[i] == keys[0] {
                            assert(!has_key(bag2, tail[i - 1]));
                        } else {
                            assert(!has_key(bag2, tail[i - 1]));
                        }
                        lemma_missing_profile_fails(bag2, tail);
                    },
                }
            },
        }
    }
}

// ------------------------------------------------------------------
// Transfer idempotence. Running the same transfer twice gives what one
// run gave, whenever the source and target identifiers coincide or
// nothing is bound to the source. (When they differ and something is
// bound to the source, one run re-binds it to the target and a second
// run removes what the first created: a list such as `["dev1_btn1"]`
// under `from = "dev1", to = "dev2"` becomes `["dev2_btn1"]` and then
// `[]`.)
// ------------------------------------------------------------------

use crate::transfer::{
    first_underscore, slot_device, slot_button, bound_to, survives, rekey, transfer_split,
    transfer_list,
};

/// Every assignment of the surviving half really survives.
pub proof fn lemma_split_survivors(s: Seq<AssignmentV>, f: Seq<char>, t: Seq<char>)
    ensures
        forall|i: int|
            0 <= i < transfer_split(s, f, t).0.len() ==> survives(
                #[trigger] transfer_split(s, f, t).0[i],
                f,
                t,
            ),
    decreases s.len(),
{
    if s.len() > 0 {
        lemma_split_survivors(s.drop_first(), f, t);
        let sub = transfer_split(s.drop_first(), f, t);
        if !bound_to(s[0], f) && !bound_to(s[0], t) {
            assert forall|i: int|
                0 <= i < transfer_split(s, f, t).0.len() implies survives(
                transfer_split(s, f, t).0[i],
                f,
                t,
            ) by {
                if i > 0 {
                    assert(transfer_split(s, f, t).0[i] == sub.0[i - 1]);
                }
            }
        }
    }
}

/// A list whose assignments all survive splits into itself and nothing.
pub proof fn lemma_split_all_survive(s: Seq<AssignmentV>, f: Seq<char>, t: Seq<char>)
    requires
        forall|i: int| 0 <= i < s.len() ==> survives(#[trigger] s[i], f, t),
    ensures
        transfer_split(s, f, t).0 =~= s,
        transfer_split(s, f, t).1 =~= Seq::<AssignmentV>::empty(),
    decreases s.len(),
{
    if s.len() > 0 {
        lemma_split_all_survive(s.drop_first(), f, t);
        assert(seq![s[0]] + s.drop_first() =~= s);
    }
}

/// A list bound entirely to the source splits into nothing and its
/// re-bound image.
pub proof fn lemma_split_all_from(s: Seq<AssignmentV>, f: Seq<char>, t: Seq<char>)
    requires
        forall|i: int| 0 <= i < s.len() ==> bound_to(#[trigger] s[i], f),
    ensures
        transfer_split(s, f, t).0 =~= Seq::<AssignmentV>::empty(),
        transfer_split(s, f, t).1 =~= s.map_values(|a: AssignmentV| rekey(a, t)),
    decreases s.len(),
{
    if s.len() > 0 {
        lemma_split_all_from(s.drop_first(), f, t);
        assert(s.drop_first().map_values(|a: AssignmentV| rekey(a, t)) =~= s.map_values(
            |a: AssignmentV| rekey(a, t),
        ).drop_first());
        assert(seq![rekey(s[0], t)] + s.map_values(|a: AssignmentV| rekey(a, t)).drop_first()
            =~= s.map_values(|a: AssignmentV| rekey(a, t)));
    }
}

/// Splitting distributes over concatenation, half by half.
pub proof fn lemma_split_concat(x: Seq<AssignmentV>, y: Seq<AssignmentV>, f: Seq<char>, t: Seq<
    char,
>)
    ensures
        transfer_split(x + y, f, t).0 =~= transfer_split(x, f, t).0 + transfer_split(y, f, t).0,
        transfer_split(x + y, f, t).1 =~= transfer_split(x, f, t).1 + transfer_split(y, f, t).1,
    decreases x.len(),
{
    if x.len() == 0 {
        assert(x + y =~= y);
        assert(transfer_split(x, f, t).0 + transfer_split(y, f, t).0 =~= transfer_split(
            y,
            f,
            t,
        ).0);
        assert(transfer_split(x, f, t).1 + transfer_split(y, f, t).1 =~= transfer_split(
            y,
            f,
            t,
        ).1);
    } else {
        lemma_split_concat(x.drop_first(), y, f, t);
        assert((x + y)[0] == x[0]);
        assert((x + y).drop_first() =~= x.drop_first() + y);
        let sub0 = transfer_split(x.drop_first() + y, f, t).0;
        let sub1 = transfer_split(x.drop_first() + y, f, t).1;
        if bound_to(x[0], f) {
            assert(seq![rekey(x[0], t)] + (transfer_split(x.drop_first(), f, t).1
                + transfer_split(y, f, t).1) =~= (seq![rekey(x[0], t)] + transfer_split(
                x.drop_first(),
                f,
                t,
            ).1) + transfer_split(y, f, t).1);
        } else if !bound_to(x[0], t) {
            assert(seq![x[0]] + (transfer_split(x.drop_first(), f, t).0 + transfer_split(
                y,
                f,
                t,
            ).0) =~= (seq![x[0]] + transfer_split(x.drop_first(), f, t).0) + transfer_split(
                y,
                f,
                t,
            ).0);
        }
    }
}

/// The first underscore of a slot identifier comes after every character
/// of an underscore-free device part.
pub proof fn lemma_first_underscore_concat(dev: Seq<char>, b: Seq<char>)
    requires
        forall|j: int| 0 <= j < dev.len() ==> dev[j] != '_',
    ensures
        first_underscore(dev + seq!['_'] + b) == Some(dev.len() as int),
    decreases dev.len(),
{
    let s = dev + seq!['_'] + b;
    if dev.len() == 0 {
        assert(s[0] == '_');
    } else {
        assert(s[0] == dev[0]);
        assert(s.drop_first() =~= dev.drop_first() + seq!['_'] + b);
        lemma_first_underscore_concat(dev.drop_first(), b);
    }
}

/// A device part never contains an underscore.
pub proof fn lemma_device_part_no_underscore(s: Seq<char>)
    requires
        first_underscore(s) is Some,
    ensures
        forall|j: int|
            0 <= j < first_underscore(s)->Some_0 ==> s[j] != '_',
        0 <= first_underscore(s)->Some_0 < s.len(),
        s[first_underscore(s)->Some_0] == '_',
    decreases s.len(),
{
    if s.len() > 0 && s[0] != '_' {
        lemma_device_part_no_underscore(s.drop_first());
        let i = first_underscore(s)->Some_0;
        assert forall|j: int| 0 <= j < i implies s[j] != '_' by {
            if j > 0 {
                assert(s.drop_first()[j - 1] != '_');
            }
        }
        assert(s.drop_first()[i - 1] == '_');
    }
}

/// With an underscore-free target, re-binding is stable: the re-bound
/// assignment is bound to the target and re-binding it again changes
/// nothing.
pub proof fn lemma_rekey_fixed(a: AssignmentV, t: Seq<char>)
    requires
        forall|j: int| 0 <= j < t.len() ==> t[j] != '_',
    ensures
        bound_to(rekey(a, t), t),
        rekey(rekey(a, t), t) == rekey(a, t),
{
    let b = slot_button(a.slot_id);
    lemma_first_underscore_concat(t, b);
    let slot = t + seq!['_'] + b;
    assert(slot.take(t.len() as int) =~= t);
    assert(slot.skip(t.len() as int + 1) =~= b);
}

/// Binding to a device identifier that itself contains an underscore is
/// impossible: the device part of a slot stops at the first underscore.
pub proof fn lemma_no_binding_to_underscored(a: AssignmentV, t: Seq<char>, j: int)
    requires
        0 <= j < t.len(),
        t[j] == '_',
    ensures
        !bound_to(a, t),
{
    if bound_to(a, t) {
        lemma_device_part_no_underscore(a.slot_id);
        let i = first_underscore(a.slot_id)->Some_0;
        assert(a.slot_id.take(i) == t);
        assert(a.slot_id.take(i)[j] == a.slot_id[j]);
        assert(a.slot_id[j] != '_');
    }
}

/// Idempotence: applying the same transfer twice gives what one
/// application gave, whenever the two device identifiers coincide or no
/// assignment is bound to the source. (When they differ and some
/// assignment is bound to the source, the second application removes the
/// re-bound assignments the first created, so the outcomes differ.)
pub proof fn lemma_transfer_idempotent(s: Seq<AssignmentV>, f: Seq<char>, t: Seq<char>)
    requires
        f == t || forall|i: int| 0 <= i < s.len() ==> !bound_to(#[trigger] s[i], f),
    ensures
        transfer_list(transfer_list(s, f, t), f, t) == transfer_list(s, f, t),
{
    let k = transfer_split(s, f, t).0;
    let n = transfer_split(s, f, t).1;
    let once = transfer_list(s, f, t);
    lemma_split_survivors(s, f, t);
    lemma_split_concat(k, n, f, t);
    lemma_split_all_survive(k, f, t);
    if f == t && (exists|j: int| 0 <= j < t.len() && t[j] == '_') {
        let j = choose|j: int| 0 <= j < t.len() && t[j] == '_';
        assert forall|i: int| 0 <= i < s.len() implies !bound_to(#[trigger] s[i], f) by {
            lemma_no_binding_to_underscored(s[i], t, j);
        }
        assert(n =~= Seq::<AssignmentV>::empty()) by {
            lemma_split_no_from(s, f, t);
        }
        assert(once =~= k);
        lemma_split_all_survive(once, f, t);
        assert(transfer_list(once, f, t) =~= once + Seq::<AssignmentV>::empty());
        assert(transfer_list(once, f, t) =~= once);
    } else if f == t {
        // every re-bound assignment is bound to the target and re-binding
        // it again changes nothing
        assert forall|i: int| 0 <= i < n.len() implies bound_to(#[trigger] n[i], f) && rekey(
            n[i],
            t,
        ) == n[i] by {
            lemma_split_rekeys(s, f, t);
            assert(is_rekey_of_some(n[i], f, t));
            let a = choose|a: AssignmentV| bound_to(a, f) && n[i] == rekey(a, t);
            lemma_rekey_fixed(a, t);
        }
        lemma_split_all_from(n, f, t);
        assert(n.map_values(|a: AssignmentV| rekey(a, t)) =~= n);
        assert(transfer_split(once, f, t).0 =~= k + Seq::<AssignmentV>::empty());
        assert(transfer_split(once, f, t).1 =~= Seq::<AssignmentV>::empty() + n);
        assert(transfer_list(once, f, t) =~= k + n);
        assert(transfer_list(once, f, t) =~= once);
    } else {
        lemma_split_no_from(s, f, t);
        assert(n =~= Seq::<AssignmentV>::empty());
        assert(once =~= k);
        lemma_split_all_survive(once, f, t);
        assert(transfer_list(once, f, t) =~= once + Seq::<AssignmentV>::empty());
        assert(transfer_list(once, f, t) =~= once);
    }
}

/// After a transfer to an underscore-free target other than the source,
/// no assignment remains bound to the source: the survivors never were,
/// and the re-bound ones are bound to the target.
pub proof fn lemma_transfer_clears_source(s: Seq<AssignmentV>, f: Seq<char>, t: Seq<char>)
    requires
        f != t,
        forall|j: int| 0 <= j < t.len() ==> t[j] != '_',
    ensures
        forall|i: int|
            0 <= i < transfer_list(s, f, t).len() ==> !bound_to(
                #[trigger] transfer_list(s, f, t)[i],
                f,
            ),
{
    let k = transfer_split(s, f, t).0;
    let n = transfer_split(s, f, t).1;
    lemma_split_survivors(s, f, t);
    lemma_split_rekeys(s, f, t);
    assert forall|i: int| 0 <= i < transfer_list(s, f, t).len() implies !bound_to(
        #[trigger] transfer_list(s, f, t)[i],
        f,
    ) by {
        if i < k.len() {
            assert(transfer_list(s, f, t)[i] == k[i]);
        } else {
            assert(transfer_list(s, f, t)[i] == n[i - k.len()]);
            assert(is_rekey_of_some(n[i - k.len()], f, t));
            let a = choose|a: AssignmentV| bound_to(a, f) && n[i - k.len()] == rekey(a, t);
            lemma_rekey_fixed(a, t);
            assert(bound_to(n[i - k.len()], t));
        }
    }
}

use crate::transfer::{transfer_profile, transfer_settings};

/// Idempotence over the whole document: applying the same transfer twice
/// gives what one application gave, under the same proviso as for one
/// list — the two identifiers coincide, or no profile holds an assignment
/// bound to the source.
pub proof fn lemma_transfer_settings_idempotent(s: SettingsV, f: Seq<char>, t: Seq<char>)
    requires
        f == t || forall|i: int, j: int|
            0 <= i < s.profiles.len() && 0 <= j < s.profiles[i].1.assignments.len()
                ==> !bound_to(#[trigger] s.profiles[i].1.assignments[j], f),
    ensures
        transfer_settings(transfer_settings(s, f, t), f, t) == transfer_settings(s, f, t),
{
    let s1 = transfer_settings(s, f, t);
    let s2 = transfer_settings(s1, f, t);
    assert forall|i: int| 0 <= i < s1.profiles.len() implies #[trigger] s2.profiles[i]
        == s1.profiles[i] by {
        assert(s1.profiles[i].1 == transfer_profile(s.profiles[i].1, f, t));
        if f != t {
            assert forall|j: int|
                0 <= j < s.profiles[i].1.assignments.len() implies !bound_to(
                #[trigger] s.profiles[i].1.assignments[j],
                f,
            ) by {}
        }
        lemma_transfer_idempotent(s.profiles[i].1.assignments, f, t);
    }
    assert(s2.profiles =~= s1.profiles);
}

/// With nothing bound to the source, nothing is re-bound.
pub proof fn lemma_split_no_from(s: Seq<AssignmentV>, f: Seq<char>, t: Seq<char>)
    requires
        forall|i: int| 0 <= i < s.len() ==> !bound_to(#[trigger] s[i], f),
    ensures
        transfer_split(s, f, t).1 =~= Seq::<AssignmentV>::empty(),
    decreases s.len(),
{
    if s.len() > 0 {
        lemma_split_no_from(s.drop_first(), f, t);
    }
}

/// The assignment is the re-bound image of some source-bound one.
pub open spec fn is_rekey_of_some(x: AssignmentV, f: Seq<char>, t: Seq<char>) -> bool {
    exists|a: AssignmentV| bound_to(a, f) && x == rekey(a, t)
}

/// Every re-bound assignment is the image of some source-bound one.
pub proof fn lemma_split_rekeys(s: Seq<AssignmentV>, f: Seq<char>, t: Seq<char>)
    ensures
        forall|i: int|
            0 <= i < transfer_split(s, f, t).1.len() ==> is_rekey_of_some(
                #[trigger] transfer_split(s, f, t).1[i],
                f,
                t,
            ),
    decreases s.len(),
{
    if s.len() > 0 {
        lemma_split_rekeys(s.drop_first(), f, t);
        let sub = transfer_split(s.drop_first(), f, t);
        if bound_to(s[0], f) {
            assert forall|i: int|
                0 <= i < transfer_split(s, f, t).1.len() implies is_rekey_of_some(
                #[trigger] transfer_split(s, f, t).1[i],
                f,
                t,
            ) by {
                if i == 0 {
                    assert(transfer_split(s, f, t).1[0] == rekey(s[0], t));
                    assert(bound_to(s[0], f) && transfer_split(s, f, t).1[0] == rekey(s[0], t));
                } else {
                    assert(transfer_split(s, f, t).1[i] == sub.1[i - 1]);
                    assert(is_rekey_of_some(sub.1[i - 1], f, t));
                }
            }
        } else {
            assert forall|i: int|
                0 <= i < transfer_split(s, f, t).1.len() implies is_rekey_of_some(
                #[trigger] transfer_split(s, f, t).1[i],
                f,
                t,
            ) by {
                assert(transfer_split(s, f, t).1[i] == sub.1[i]);
                assert(is_rekey_of_some(sub.1[i], f, t));
            }
        }
    }
}

// ------------------------------------------------------------------
// Device filtering and deduplication.
// ------------------------------------------------------------------

use crate::resolve::{is_mouse, mouse_prefixes, last_mouse, lex_lt, lemma_lex_irrefl};

/// Filtering: a record of any other device type changes neither the
/// retained prefixes nor the record that wins each prefix, so it never
/// appears in the listing.
pub proof fn lemma_non_mouse_invisible(devs: Seq<ConnectedDeviceV>, d: ConnectedDeviceV)
    requires
        d.device_type != "MOUSE"@,
    ensures
        mouse_prefixes(devs.push(d)) == mouse_prefixes(devs),
        forall|p: Seq<char>| last_mouse(devs.push(d), p) == last_mouse(devs, p),
{
    assert forall|p: Seq<char>| #[trigger] mouse_prefixes(devs.push(d)).contains(p) implies
        mouse_prefixes(devs).contains(p) by {
        let i = choose|i: int|
            0 <= i < devs.push(d).len() && is_mouse(devs.push(d)[i]) && devs.push(d)[i].slot_prefix
                == p;
        assert(i < devs.len());
        assert(devs[i] == devs.push(d)[i]);
    }
    assert forall|p: Seq<char>| #[trigger] mouse_prefixes(devs).contains(p) implies mouse_prefixes(
        devs.push(d),
    ).contains(p) by {
        let i = choose|i: int|
            0 <= i < devs.len() && is_mouse(devs[i]) && devs[i].slot_prefix == p;
        assert(devs.push(d)[i] == devs[i]);
    }
    assert(mouse_prefixes(devs.push(d)) =~= mouse_prefixes(devs));
    assert forall|p: Seq<char>| true implies last_mouse(devs.push(d), p) == last_mouse(
        devs,
        p,
    ) by {
        assert(devs.push(d).last() == d);
        assert(devs.push(d).drop_last() =~= devs);
    }
}

/// Deduplication: a strictly ordered listing names each slot prefix only
/// once, however many records shared it.
pub proof fn lemma_listing_prefixes_distinct(r: Seq<(Seq<char>, Seq<char>)>)
    requires
        forall|i: int, j: int| 0 <= i < j < r.len() ==> lex_lt(#[trigger] r[i].0, #[trigger] r[j].0),
    ensures
        forall|i: int, j: int| 0 <= i < j < r.len() ==> r[i].0 != r[j].0,
{
    assert forall|i: int, j: int| 0 <= i < j < r.len() implies r[i].0 != r[j].0 by {
        lemma_lex_irrefl(r[i].0);
    }
}

} // verus!
