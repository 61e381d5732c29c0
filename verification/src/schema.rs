//! The settings schema: typed views of the few JSON fields the tool works
//! with, each carrying a remainder bag for every field it does not model.
//! Decoding takes the typed fields out of an object and keeps the rest;
//! encoding puts the typed fields first, in declaration order, and the
//! remainder after them, in its original order. The top level additionally
//! promotes one remainder entry per `profile_keys` name into a typed
//! profile map, and demotes it back on encode.

use vstd::prelude::*;

use crate::json::{
    Json, JVal, emodel, amodel, has_key, keys_unique, lookup, remove_key, insert_entry, obj_take,
    obj_insert, lit,
};

verus! {

/// Why a document failed to decode: a required field is absent, a field or
/// value has the wrong JSON shape, or a `profile_keys` name has no body.
#[derive(Debug, PartialEq, Eq)]
pub enum SchemaError {
    MissingField(String),
    WrongShape(String),
    MissingProfile(String),
}

/// The mathematical shape of a `SchemaError`.
pub enum SchemaErrorV {
    MissingField(Seq<char>),
    WrongShape(Seq<char>),
    MissingProfile(Seq<char>),
}

impl View for SchemaError {
    type V = SchemaErrorV;

    open spec fn view(&self) -> SchemaErrorV {
        match self {
            SchemaError::MissingField(s) => SchemaErrorV::MissingField(s@),
            SchemaError::WrongShape(s) => SchemaErrorV::WrongShape(s@),
            SchemaError::MissingProfile(s) => SchemaErrorV::MissingProfile(s@),
        }
    }
}

/// What a decoder's outcome stands for: the decoded value's model, or the
/// error's.
pub open spec fn res_model<T: View>(r: Result<T, SchemaError>) -> Result<T::V, SchemaErrorV> {
    match r {
        Ok(x) => Ok(x@),
        Err(e) => Err(e@),
    }
}

/// One button-to-action binding. `slot_id` is
/// `"<device-identifier>_<button-identifier>"`.
#[derive(Debug, PartialEq, Eq)]
pub struct Assignment {
    pub slot_id: String,
    pub rest: Vec<(String, Json)>,
}

pub struct AssignmentV {
    pub slot_id: Seq<char>,
    pub rest: Seq<(Seq<char>, JVal)>,
}

impl View for Assignment {
    type V = AssignmentV;

    open spec fn view(&self) -> AssignmentV {
        AssignmentV { slot_id: self.slot_id@, rest: emodel(self.rest@) }
    }
}

/// One profile: its assignment list plus everything else it carried.
#[derive(Debug, PartialEq, Eq)]
pub struct Profile {
    pub assignments: Vec<Assignment>,
    pub rest: Vec<(String, Json)>,
}

pub struct ProfileV {
    pub assignments: Seq<AssignmentV>,
    pub rest: Seq<(Seq<char>, JVal)>,
}

impl View for Profile {
    type V = ProfileV;

    open spec fn view(&self) -> ProfileV {
        ProfileV { assignments: vm(self.assignments@), rest: emodel(self.rest@) }
    }
}

/// One record of the ever-connected-device history.
#[derive(Debug, PartialEq, Eq)]
pub struct ConnectedDevice {
    pub connection_type: Option<String>,
    pub device_model: String,
    pub device_type: String,
    pub slot_prefix: String,
    pub rest: Vec<(String, Json)>,
}

pub struct ConnectedDeviceV {
    pub connection_type: Option<Seq<char>>,
    pub device_model: Seq<char>,
    pub device_type: Seq<char>,
    pub slot_prefix: Seq<char>,
    pub rest: Seq<(Seq<char>, JVal)>,
}

impl View for ConnectedDevice {
    type V = ConnectedDeviceV;

    open spec fn view(&self) -> ConnectedDeviceV {
        ConnectedDeviceV {
            connection_type: match self.connection_type {
                Some(s) => Some(s@),
                None => None,
            },
            device_model: self.device_model@,
            device_type: self.device_type@,
            slot_prefix: self.slot_prefix@,
            rest: emodel(self.rest@),
        }
    }
}

/// The device history: its record list plus everything else it carried.
#[derive(Debug, PartialEq, Eq)]
pub struct EverConnectedDevices {
    pub devices: Vec<ConnectedDevice>,
    pub rest: Vec<(String, Json)>,
}

pub struct EverConnectedDevicesV {
    pub devices: Seq<ConnectedDeviceV>,
    pub rest: Seq<(Seq<char>, JVal)>,
}

impl View for EverConnectedDevices {
    type V = EverConnectedDevicesV;

    open spec fn view(&self) -> EverConnectedDevicesV {
        EverConnectedDevicesV { devices: vm(self.devices@), rest: emodel(self.rest@) }
    }
}

/// One migration-report record: a model identifier and its human-readable
/// name.
#[derive(Debug, PartialEq, Eq)]
pub struct MigrationDevice {
    pub device_name: String,
    pub model_id: String,
    pub rest: Vec<(String, Json)>,
}

pub struct MigrationDeviceV {
    pub device_name: Seq<char>,
    pub model_id: Seq<char>,
    pub rest: Seq<(Seq<char>, JVal)>,
}

impl View for MigrationDevice {
    type V = MigrationDeviceV;

    open spec fn view(&self) -> MigrationDeviceV {
        MigrationDeviceV {
            device_name: self.device_name@,
            model_id: self.model_id@,
            rest: emodel(self.rest@),
        }
    }
}

/// The migration report: its record list plus everything else it carried.
#[derive(Debug, PartialEq, Eq)]
pub struct MigrationReport {
    pub devices: Vec<MigrationDevice>,
    pub rest: Vec<(String, Json)>,
}

pub struct MigrationReportV {
    pub devices: Seq<MigrationDeviceV>,
    pub rest: Seq<(Seq<char>, JVal)>,
}

impl View for MigrationReport {
    type V = MigrationReportV;

    open spec fn view(&self) -> MigrationReportV {
        MigrationReportV { devices: vm(self.devices@), rest: emodel(self.rest@) }
    }
}

/// The whole settings document. `profile_keys` is the authoritative,
/// order-significant list of profile names; `profiles` holds one decoded
/// profile per name, in the same order.
#[derive(Debug, PartialEq, Eq)]
pub struct Settings {
    pub profile_keys: Vec<String>,
    pub profiles: Vec<(String, Profile)>,
    pub ever_connected_devices: EverConnectedDevices,
    pub migration_report: MigrationReport,
    pub rest: Vec<(String, Json)>,
}

pub struct SettingsV {
    pub profile_keys: Seq<Seq<char>>,
    pub profiles: Seq<(Seq<char>, ProfileV)>,
    pub ever_connected_devices: EverConnectedDevicesV,
    pub migration_report: MigrationReportV,
    pub rest: Seq<(Seq<char>, JVal)>,
}

impl View for Settings {
    type V = SettingsV;

    open spec fn view(&self) -> SettingsV {
        SettingsV {
            profile_keys: vm(self.profile_keys@),
            profiles: pvm(self.profiles@),
            ever_connected_devices: self.ever_connected_devices@,
            migration_report: self.migration_report@,
            rest: emodel(self.rest@),
        }
    }
}

// ------------------------------------------------------------------
// What decoding and encoding mean.
// ------------------------------------------------------------------

/// Takes the field `name` out of `entries` when it is a string.
pub open spec fn take_str_field(entries: Seq<(Seq<char>, JVal)>, name: Seq<char>) -> Result<
    (Seq<char>, Seq<(Seq<char>, JVal)>),
    SchemaErrorV,
> {
    match lookup(entries, name) {
        Some(JVal::Str(s)) => Ok((s, remove_key(entries, name))),
        Some(_) => Err(SchemaErrorV::WrongShape(name)),
        None => Err(SchemaErrorV::MissingField(name)),
    }
}

/// Takes the field `name` out of `entries` when it is a string or null.
pub open spec fn take_opt_str_field(entries: Seq<(Seq<char>, JVal)>, name: Seq<char>) -> Result<
    (Option<Seq<char>>, Seq<(Seq<char>, JVal)>),
    SchemaErrorV,
> {
    match lookup(entries, name) {
        Some(JVal::Str(s)) => Ok((Some(s), remove_key(entries, name))),
        Some(JVal::Null) => Ok((None, remove_key(entries, name))),
        Some(_) => Err(SchemaErrorV::WrongShape(name)),
        None => Err(SchemaErrorV::MissingField(name)),
    }
}

/// Takes the field `name` out of `entries` when it is an array.
pub open spec fn take_arr_field(entries: Seq<(Seq<char>, JVal)>, name: Seq<char>) -> Result<
    (Seq<JVal>, Seq<(Seq<char>, JVal)>),
    SchemaErrorV,
> {
    match lookup(entries, name) {
        Some(JVal::Arr(items)) => Ok((items, remove_key(entries, name))),
        Some(_) => Err(SchemaErrorV::WrongShape(name)),
        None => Err(SchemaErrorV::MissingField(name)),
    }
}

/// Decodes every item of a list, stopping at the first failure.
pub open spec fn decode_list<T>(
    items: Seq<JVal>,
    f: spec_fn(JVal) -> Result<T, SchemaErrorV>,
) -> Result<Seq<T>, SchemaErrorV>
    decreases items.len(),
{
    if items.len() == 0 {
        Ok(Seq::empty())
    } else {
        match f(items[0]) {
            Err(e) => Err(e),
            Ok(x) => match decode_list(items.drop_first(), f) {
                Err(e) => Err(e),
                Ok(t) => Ok(seq![x] + t),
            },
        }
    }
}

/// The model of an executable list, element by element.
pub open spec fn vm<T: View>(s: Seq<T>) -> Seq<T::V> {
    Seq::new(s.len(), |i: int| s[i]@)
}

/// The model of an executable name/profile list.
pub open spec fn pvm(s: Seq<(String, Profile)>) -> Seq<(Seq<char>, ProfileV)> {
    Seq::new(s.len(), |i: int| (s[i].0@, s[i].1@))
}

pub open spec fn decode_assignment(v: JVal) -> Result<AssignmentV, SchemaErrorV> {
    match v {
        JVal::Obj(entries) => match take_str_field(entries, "slotId"@) {
            Ok((s, rest)) => Ok(AssignmentV { slot_id: s, rest }),
            Err(e) => Err(e),
        },
        _ => Err(SchemaErrorV::WrongShape("assignment"@)),
    }
}

pub open spec fn encode_assignment(a: AssignmentV) -> JVal {
    JVal::Obj(seq![("slotId"@, JVal::Str(a.slot_id))] + remove_key(a.rest, "slotId"@))
}

/// Decodes a list of assignment objects.
pub open spec fn decode_assignment_list(items: Seq<JVal>) -> Result<Seq<AssignmentV>, SchemaErrorV> {
    decode_list(items, |x: JVal| decode_assignment(x))
}

pub open spec fn decode_profile(v: JVal) -> Result<ProfileV, SchemaErrorV> {
    match v {
        JVal::Obj(entries) => match take_arr_field(entries, "assignments"@) {
            Ok((items, rest)) => match decode_assignment_list(items) {
                Ok(assignments) => Ok(ProfileV { assignments, rest }),
                Err(e) => Err(e),
            },
            Err(e) => Err(e),
        },
        _ => Err(SchemaErrorV::WrongShape("profile"@)),
    }
}

pub open spec fn encode_profile(p: ProfileV) -> JVal {
    JVal::Obj(
        seq![
            ("assignments"@, JVal::Arr(p.assignments.map_values(|a: AssignmentV| encode_assignment(a)))),
        ] + remove_key(p.rest, "assignments"@),
    )
}

pub open spec fn decode_connected_device(v: JVal) -> Result<ConnectedDeviceV, SchemaErrorV> {
    match v {
        JVal::Obj(entries) => match take_opt_str_field(entries, "connectionType"@) {
            Err(e) => Err(e),
            Ok((connection_type, e1)) => match take_str_field(e1, "deviceModel"@) {
                Err(e) => Err(e),
                Ok((device_model, e2)) => match take_str_field(e2, "deviceType"@) {
                    Err(e) => Err(e),
                    Ok((device_type, e3)) => match take_str_field(e3, "slotPrefix"@) {
                        Err(e) => Err(e),
                        Ok((slot_prefix, rest)) => Ok(
                            ConnectedDeviceV {
                                connection_type,
                                device_model,
                                device_type,
                                slot_prefix,
                                rest,
                            },
                        ),
                    },
                },
            },
        },
        _ => Err(SchemaErrorV::WrongShape("device"@)),
    }
}

pub open spec fn encode_connected_device(d: ConnectedDeviceV) -> JVal {
    JVal::Obj(
        seq![
            (
                "connectionType"@,
                match d.connection_type {
                    Some(s) => JVal::Str(s),
                    None => JVal::Null,
                },
            ),
            ("deviceModel"@, JVal::Str(d.device_model)),
            ("deviceType"@, JVal::Str(d.device_type)),
            ("slotPrefix"@, JVal::Str(d.slot_prefix)),
        ] + remove_key(
            remove_key(
                remove_key(remove_key(d.rest, "connectionType"@), "deviceModel"@),
                "deviceType"@,
            ),
            "slotPrefix"@,
        ),
    )
}

pub open spec fn decode_migration_device(v: JVal) -> Result<MigrationDeviceV, SchemaErrorV> {
    match v {
        JVal::Obj(entries) => match take_str_field(entries, "deviceName"@) {
            Err(e) => Err(e),
            Ok((device_name, e1)) => match take_str_field(e1, "modelId"@) {
                Err(e) => Err(e),
                Ok((model_id, rest)) => Ok(MigrationDeviceV { device_name, model_id, rest }),
            },
        },
        _ => Err(SchemaErrorV::WrongShape("migration device"@)),
    }
}

pub open spec fn encode_migration_device(d: MigrationDeviceV) -> JVal {
    JVal::Obj(
        seq![("deviceName"@, JVal::Str(d.device_name)), ("modelId"@, JVal::Str(d.model_id))]
            + remove_key(remove_key(d.rest, "deviceName"@), "modelId"@),
    )
}

/// Decodes a list of connected-device objects.
pub open spec fn decode_connected_device_list(items: Seq<JVal>) -> Result<
    Seq<ConnectedDeviceV>,
    SchemaErrorV,
> {
    decode_list(items, |x: JVal| decode_connected_device(x))
}

pub open spec fn decode_ever_connected_devices(v: JVal) -> Result<
    EverConnectedDevicesV,
    SchemaErrorV,
> {
    match v {
        JVal::Obj(entries) => match take_arr_field(entries, "devices"@) {
            Err(e) => Err(e),
            Ok((items, rest)) => match decode_connected_device_list(items) {
                Ok(devices) => Ok(EverConnectedDevicesV { devices, rest }),
                Err(e) => Err(e),
            },
        },
        _ => Err(SchemaErrorV::WrongShape("ever_connected_devices"@)),
    }
}

pub open spec fn encode_ever_connected_devices(d: EverConnectedDevicesV) -> JVal {
    JVal::Obj(
        seq![
            (
                "devices"@,
                JVal::Arr(d.devices.map_values(|x: ConnectedDeviceV| encode_connected_device(x))),
            ),
        ] + remove_key(d.rest, "devices"@),
    )
}

/// Decodes a list of migration-report records.
pub open spec fn decode_migration_device_list(items: Seq<JVal>) -> Result<
    Seq<MigrationDeviceV>,
    SchemaErrorV,
> {
    decode_list(items, |x: JVal| decode_migration_device(x))
}

pub open spec fn decode_migration_report(v: JVal) -> Result<MigrationReportV, SchemaErrorV> {
    match v {
        JVal::Obj(entries) => match take_arr_field(entries, "devices"@) {
            Err(e) => Err(e),
            Ok((items, rest)) => match decode_migration_device_list(items) {
                Ok(devices) => Ok(MigrationReportV { devices, rest }),
                Err(e) => Err(e),
            },
        },
        _ => Err(SchemaErrorV::WrongShape("migration_report"@)),
    }
}

pub open spec fn encode_migration_report(d: MigrationReportV) -> JVal {
    JVal::Obj(
        seq![
            (
                "devices"@,
                JVal::Arr(d.devices.map_values(|x: MigrationDeviceV| encode_migration_device(x))),
            ),
        ] + remove_key(d.rest, "devices"@),
    )
}

/// One string of a `profile_keys` list.
pub open spec fn decode_profile_name(v: JVal) -> Result<Seq<char>, SchemaErrorV> {
    match v {
        JVal::Str(s) => Ok(s),
        _ => Err(SchemaErrorV::WrongShape("profile_keys"@)),
    }
}

/// Decodes a list of profile-name strings.
pub open spec fn decode_profile_name_list(items: Seq<JVal>) -> Result<Seq<Seq<char>>, SchemaErrorV> {
    decode_list(items, |x: JVal| decode_profile_name(x))
}

/// Promotion: takes one remainder entry per name, in order, and decodes it
/// as a profile. A name with no entry fails with `MissingProfile`.
pub open spec fn promote(rest: Seq<(Seq<char>, JVal)>, keys: Seq<Seq<char>>) -> Result<
    (Seq<(Seq<char>, ProfileV)>, Seq<(Seq<char>, JVal)>),
    SchemaErrorV,
>
    decreases keys.len(),
{
    if keys.len() == 0 {
        Ok((Seq::empty(), rest))
    } else {
        let k = keys[0];
        match lookup(rest, k) {
            None => Err(SchemaErrorV::MissingProfile(k)),
            Some(v) => match decode_profile(v) {
                Err(e) => Err(e),
                Ok(p) => match promote(remove_key(rest, k), keys.drop_first()) {
                    Err(e) => Err(e),
                    Ok((ps, r)) => Ok((seq![(k, p)] + ps, r)),
                },
            },
        }
    }
}

/// Demotion: encodes each profile back into the remainder bag under its
/// name, in order.
pub open spec fn demote(
    profiles: Seq<(Seq<char>, ProfileV)>,
    rest: Seq<(Seq<char>, JVal)>,
) -> Seq<(Seq<char>, JVal)>
    decreases profiles.len(),
{
    if profiles.len() == 0 {
        rest
    } else {
        demote(
            profiles.drop_first(),
            insert_entry(rest, profiles[0].0, encode_profile(profiles[0].1)),
        )
    }
}

pub open spec fn decode_settings_obj(entries: Seq<(Seq<char>, JVal)>) -> Result<
    SettingsV,
    SchemaErrorV,
> {
    match take_arr_field(entries, "profile_keys"@) {
        Err(e) => Err(e),
        Ok((items, e1)) => match decode_profile_name_list(items) {
            Err(e) => Err(e),
            Ok(keys) => match lookup(e1, "ever_connected_devices"@) {
                None => Err(SchemaErrorV::MissingField("ever_connected_devices"@)),
                Some(ev) => match decode_ever_connected_devices(ev) {
                    Err(e) => Err(e),
                    Ok(ecd) => {
                        let e2 = remove_key(e1, "ever_connected_devices"@);
                        match lookup(e2, "migration_report"@) {
                            None => Err(SchemaErrorV::MissingField("migration_report"@)),
                            Some(mv) => match decode_migration_report(mv) {
                                Err(e) => Err(e),
                                Ok(mr) => {
                                    let e3 = remove_key(e2, "migration_report"@);
                                    match promote(e3, keys) {
                                        Err(e) => Err(e),
                                        Ok((profiles, rest)) => Ok(
                                            SettingsV {
                                                profile_keys: keys,
                                                profiles,
                                                ever_connected_devices: ecd,
                                                migration_report: mr,
                                                rest,
                                            },
                                        ),
                                    }
                                },
                            },
                        }
                    },
                },
            },
        },
    }
}

pub open spec fn decode_settings(v: JVal) -> Result<SettingsV, SchemaErrorV> {
    match v {
        JVal::Obj(entries) => decode_settings_obj(entries),
        _ => Err(SchemaErrorV::WrongShape("settings"@)),
    }
}

// ------------------------------------------------------------------
// Executable decoding and encoding.
// ------------------------------------------------------------------

impl Assignment {
    /// Decodes an assignment object: `slotId` becomes the typed field and
    /// every other entry stays in the remainder.
    pub fn decode(v: Json) -> (r: Result<Assignment, SchemaError>)
        ensures
            res_model(r) == decode_assignment(v@),
    {
        let ghost vv = v@;
        match v {
            Json::Obj(mut entries) => {
                proof {
                    assert(vv->Obj_0 =~= emodel(entries@));
                }
                let ghost e0 = emodel(entries@);
                let key = lit("slotId");
                match obj_take(&mut entries, &key) {
                    Some(Json::Str(s)) => {
                        proof {
                            assert(vv->Obj_0 == e0);
                            assert(lookup(e0, "slotId"@) == Some(JVal::Str(s@)));
                            assert(take_str_field(e0, "slotId"@) == Ok::<
                                _,
                                SchemaErrorV,
                            >((s@, remove_key(e0, "slotId"@))));
                            assert(emodel(entries@) == remove_key(e0, "slotId"@));
                        }
                        Ok(Assignment { slot_id: s, rest: entries })
                    },
                    Some(j) => {
                        proof {
                            assert(!(j@ is Str));
                            assert(lookup(e0, "slotId"@) == Some(j@));
                            assert(take_str_field(e0, "slotId"@) == Err::<
                                (Seq<char>, Seq<(Seq<char>, JVal)>),
                                _,
                            >(SchemaErrorV::WrongShape("slotId"@)));
                        }
                        Err(SchemaError::WrongShape(key))
                    },
                    None => {
                        proof {
                            crate::json::lemma_lookup_has_key(e0, "slotId"@);
                        }
                        Err(SchemaError::MissingField(key))
                    },
                }
            },
            _ => Err(SchemaError::WrongShape(lit("assignment"))),
        }
    }

    /// Encodes an assignment back to a JSON object: `slotId` first, the
    /// remainder after it.
    pub fn encode(self) -> (r: Json)
        ensures
            r@ == encode_assignment(self@),
    {
        let ghost sv = self@;
        let Assignment { slot_id, mut rest } = self;
        let ghost r0 = emodel(rest@);
        let key = lit("slotId");
        let taken = obj_take(&mut rest, &key);
        proof {
            if taken is None {
                crate::json::lemma_remove_key_absent(r0, "slotId"@);
            }
            assert(emodel(rest@) =~= remove_key(r0, "slotId"@));
        }
        let mut entries: Vec<(String, Json)> = Vec::new();
        entries.push((key, Json::Str(slot_id)));
        entries.append(&mut rest);
        let ghost ef = emodel(entries@);
        let r = Json::Obj(entries);
        proof {
            assert(r@->Obj_0 =~= ef);
            assert(ef =~= seq![("slotId"@, JVal::Str(sv.slot_id))] + remove_key(
                sv.rest,
                "slotId"@,
            ));
        }
        r
    }
}

/// Decodes each item of `items` as an assignment, stopping at the first
/// failure.
#[verifier::loop_isolation(false)]
fn decode_assignment_vec(items: Vec<Json>) -> (r: Result<Vec<Assignment>, SchemaError>)
    ensures
        (match r {
            Ok(out) => decode_assignment_list(amodel(items@)) == Ok::<_, SchemaErrorV>(vm(out@)),
            Err(e) => decode_assignment_list(amodel(items@)) == Err::<Seq<AssignmentV>, _>(e@),
        }),
{
    let ghost orig = amodel(items@);
    let mut items = items;
    let mut out: Vec<Assignment> = Vec::new();
    proof {
        assert(amodel(items@) =~= orig);
        assert(vm(out@) =~= Seq::<AssignmentV>::empty());
    }
    while items.len() != 0
        invariant
            (match decode_assignment_list(amodel(items@)) {
                Ok(t) => decode_assignment_list(orig) == Ok::<_, SchemaErrorV>(vm(out@) + t),
                Err(e) => decode_assignment_list(orig) == Err::<Seq<AssignmentV>, _>(e),
            }),
        decreases items@.len(),
    {
        let ghost s = amodel(items@);
        let ghost done = vm(out@);
        let j = items.remove(0);
        proof {
            assert(j@ == s[0]);
            assert(amodel(items@) =~= s.drop_first());
        }
        match Assignment::decode(j) {
            Err(e) => {
                proof {
                    assert(decode_assignment_list(s) == Err::<Seq<AssignmentV>, _>(e@));
                }
                return Err(e);
            },
            Ok(a) => {
                out.push(a);
                proof {
                    assert(vm(out@) =~= done.push(a@));
                    match decode_assignment_list(s.drop_first()) {
                        Ok(t) => {
                            assert(decode_assignment_list(s) == Ok::<_, SchemaErrorV>(
                                seq![a@] + t,
                            ));
                            assert(done + (seq![a@] + t) =~= done.push(a@) + t);
                        },
                        Err(e) => {
                            assert(decode_assignment_list(s) == Err::<Seq<AssignmentV>, _>(e));
                        },
                    }
                }
            },
        }
    }
    proof {
        assert(amodel(items@).len() == 0);
        assert(decode_assignment_list(amodel(items@)) == Ok::<_, SchemaErrorV>(
            Seq::<AssignmentV>::empty(),
        ));
        assert(vm(out@) + Seq::<AssignmentV>::empty() =~= vm(out@));
    }
    Ok(out)
}

/// Encodes each assignment of `list`, in order.
#[verifier::loop_isolation(false)]
fn encode_assignment_vec(list: Vec<Assignment>) -> (r: Vec<Json>)
    ensures
        amodel(r@) == vm(list@).map_values(|a: AssignmentV| encode_assignment(a)),
{
    let ghost orig = vm(list@);
    let ghost target = vm(list@).map_values(|a: AssignmentV| encode_assignment(a));
    let mut list = list;
    let mut out: Vec<Json> = Vec::new();
    let ghost n = orig.len();
    while list.len() != 0
        invariant
            vm(list@) =~= orig.skip(n - list@.len() as int),
            0 <= n - list@.len() as int <= n,
            n == orig.len(),
            target == orig.map_values(|a: AssignmentV| encode_assignment(a)),
            amodel(out@) =~= target.take(n - list@.len() as int),
        decreases list@.len(),
    {
        let ghost i = n - list@.len() as int;
        let ghost done = amodel(out@);
        let ghost lh = list@;
        let a = list.remove(0);
        proof {
            assert(vm(lh)[0] == lh[0]@);
            assert(orig.skip(i)[0] == orig[i]);
            assert(a@ == orig[i]);
            assert forall|j: int| 0 <= j < list@.len() implies vm(list@)[j] == orig.skip(
                i + 1,
            )[j] by {
                assert(list@[j] == lh[j + 1]);
                assert(vm(lh)[j + 1] == lh[j + 1]@);
                assert(orig.skip(i)[j + 1] == orig[i + 1 + j]);
            }
            assert(vm(list@) =~= orig.skip(i + 1));
        }
        let e = a.encode();
        out.push(e);
        proof {
            assert(amodel(out@) =~= done.push(e@));
            assert(target[i] == encode_assignment(orig[i]));
            assert(amodel(out@) =~= target.take(i + 1));
        }
    }
    proof {
        assert(amodel(out@) =~= target);
    }
    out
}

impl Profile {
    /// Decodes a profile object: `assignments` becomes the typed list and
    /// every other entry stays in the remainder.
    pub fn decode(v: Json) -> (r: Result<Profile, SchemaError>)
        ensures
            res_model(r) == decode_profile(v@),
    {
        let ghost vv = v@;
        match v {
            Json::Obj(mut entries) => {
                proof {
                    assert(vv->Obj_0 =~= emodel(entries@));
                }
                let ghost e0 = emodel(entries@);
                let key = lit("assignments");
                match obj_take(&mut entries, &key) {
                    Some(Json::Arr(items)) => {
                        proof {
                            assert(vv->Obj_0 == e0);
                            assert(Json::Arr(items)@->Arr_0 =~= amodel(items@));
                            assert(lookup(e0, "assignments"@) == Some(
                                JVal::Arr(amodel(items@)),
                            ));
                            assert(emodel(entries@) == remove_key(e0, "assignments"@));
                        }
                        match decode_assignment_vec(items) {
                            Ok(assignments) => Ok(Profile { assignments, rest: entries }),
                            Err(e) => Err(e),
                        }
                    },
                    Some(j) => {
                        proof {
                            assert(!(j@ is Arr));
                            assert(lookup(e0, "assignments"@) == Some(j@));
                        }
                        Err(SchemaError::WrongShape(key))
                    },
                    None => {
                        proof {
                            crate::json::lemma_lookup_has_key(e0, "assignments"@);
                        }
                        Err(SchemaError::MissingField(key))
                    },
                }
            },
            _ => Err(SchemaError::WrongShape(lit("profile"))),
        }
    }

    /// Encodes a profile back to a JSON object: `assignments` first, the
    /// remainder after it.
    pub fn encode(self) -> (r: Json)
        ensures
            r@ == encode_profile(self@),
    {
        let ghost sv = self@;
        let Profile { assignments, mut rest } = self;
        let ghost r0 = emodel(rest@);
        let key = lit("assignments");
        let taken = obj_take(&mut rest, &key);
        proof {
            if taken is None {
                crate::json::lemma_remove_key_absent(r0, "assignments"@);
            }
            assert(emodel(rest@) =~= remove_key(r0, "assignments"@));
        }
        let items = encode_assignment_vec(assignments);
        let arr = Json::Arr(items);
        proof {
            assert(arr@->Arr_0 =~= amodel(arr->Arr_0@));
        }
        let mut entries: Vec<(String, Json)> = Vec::new();
        entries.push((key, arr));
        entries.append(&mut rest);
        let ghost ef = emodel(entries@);
        let r = Json::Obj(entries);
        proof {
            assert(r@->Obj_0 =~= ef);
            assert(ef =~= seq![
                (
                    "assignments"@,
                    JVal::Arr(sv.assignments.map_values(|a: AssignmentV| encode_assignment(a))),
                ),
            ] + remove_key(sv.rest, "assignments"@));
        }
        r
    }
}

impl ConnectedDevice {
    /// Decodes a connected-device record: the four typed fields come out in
    /// declaration order, everything else stays in the remainder.
    pub fn decode(v: Json) -> (r: Result<ConnectedDevice, SchemaError>)
        ensures
            res_model(r) == decode_connected_device(v@),
    {
        let ghost vv = v@;
        match v {
            Json::Obj(mut entries) => {
                proof {
                    assert(vv->Obj_0 =~= emodel(entries@));
                }
                let ghost e0 = emodel(entries@);
                let ct_key = lit("connectionType");
                let connection_type: Option<String> = match obj_take(&mut entries, &ct_key) {
                    Some(Json::Str(s)) => Some(s),
                    Some(Json::Null) => None,
                    Some(j) => {
                        proof {
                            assert(lookup(e0, "connectionType"@) == Some(j@));
                        }
                        return Err(SchemaError::WrongShape(ct_key));
                    },
                    None => {
                        proof {
                            crate::json::lemma_lookup_has_key(e0, "connectionType"@);
                        }
                        return Err(SchemaError::MissingField(ct_key));
                    },
                };
                let ghost e1 = remove_key(e0, "connectionType"@);
                proof {
                    assert(emodel(entries@) == e1);
                    assert(take_opt_str_field(e0, "connectionType"@) == Ok::<_, SchemaErrorV>(
                        (
                            match connection_type {
                                Some(s) => Some(s@),
                                None => None::<Seq<char>>,
                            },
                            e1,
                        ),
                    ));
                }
                let dm_key = lit("deviceModel");
                let device_model: String = match obj_take(&mut entries, &dm_key) {
                    Some(Json::Str(s)) => s,
                    Some(j) => {
                        proof {
                            assert(lookup(e1, "deviceModel"@) == Some(j@));
                        }
                        return Err(SchemaError::WrongShape(dm_key));
                    },
                    None => {
                        proof {
                            crate::json::lemma_lookup_has_key(e1, "deviceModel"@);
                        }
                        return Err(SchemaError::MissingField(dm_key));
                    },
                };
                let ghost e2 = remove_key(e1, "deviceModel"@);
                proof {
                    assert(emodel(entries@) == e2);
                    assert(take_str_field(e1, "deviceModel"@) == Ok::<_, SchemaErrorV>(
                        (device_model@, e2),
                    ));
                }
                let dt_key = lit("deviceType");
                let device_type: String = match obj_take(&mut entries, &dt_key) {
                    Some(Json::Str(s)) => s,
                    Some(j) => {
                        proof {
                            assert(lookup(e2, "deviceType"@) == Some(j@));
                        }
                        return Err(SchemaError::WrongShape(dt_key));
                    },
                    None => {
                        proof {
                            crate::json::lemma_lookup_has_key(e2, "deviceType"@);
                        }
                        return Err(SchemaError::MissingField(dt_key));
                    },
                };
                let ghost e3 = remove_key(e2, "deviceType"@);
                proof {
                    assert(emodel(entries@) == e3);
                    assert(take_str_field(e2, "deviceType"@) == Ok::<_, SchemaErrorV>(
                        (device_type@, e3),
                    ));
                }
                let sp_key = lit("slotPrefix");
                let slot_prefix: String = match obj_take(&mut entries, &sp_key) {
                    Some(Json::Str(s)) => s,
                    Some(j) => {
                        proof {
                            assert(lookup(e3, "slotPrefix"@) == Some(j@));
                        }
                        return Err(SchemaError::WrongShape(sp_key));
                    },
                    None => {
                        proof {
                            crate::json::lemma_lookup_has_key(e3, "slotPrefix"@);
                        }
                        return Err(SchemaError::MissingField(sp_key));
                    },
                };
                proof {
                    assert(take_str_field(e3, "slotPrefix"@) == Ok::<_, SchemaErrorV>(
                        (slot_prefix@, remove_key(e3, "slotPrefix"@)),
                    ));
                }
                Ok(
                    ConnectedDevice {
                        connection_type,
                        device_model,
                        device_type,
                        slot_prefix,
                        rest: entries,
                    },
                )
            },
            _ => Err(SchemaError::WrongShape(lit("device"))),
        }
    }

    /// Encodes a connected-device record back to a JSON object: the four
    /// typed fields first, the remainder after them.
    pub fn encode(self) -> (r: Json)
        ensures
            r@ == encode_connected_device(self@),
    {
        let ghost sv = self@;
        let ConnectedDevice { connection_type, device_model, device_type, slot_prefix, mut rest } =
            self;
        let ghost r0 = emodel(rest@);
        let k1 = lit("connectionType");
        let t1 = obj_take(&mut rest, &k1);
        proof {
            if t1 is None {
                crate::json::lemma_remove_key_absent(r0, "connectionType"@);
            }
        }
        let ghost r1 = remove_key(r0, "connectionType"@);
        let k2 = lit("deviceModel");
        let t2 = obj_take(&mut rest, &k2);
        proof {
            if t2 is None {
                crate::json::lemma_remove_key_absent(r1, "deviceModel"@);
            }
        }
        let ghost r2 = remove_key(r1, "deviceModel"@);
        let k3 = lit("deviceType");
        let t3 = obj_take(&mut rest, &k3);
        proof {
            if t3 is None {
                crate::json::lemma_remove_key_absent(r2, "deviceType"@);
            }
        }
        let ghost r3 = remove_key(r2, "deviceType"@);
        let k4 = lit("slotPrefix");
        let t4 = obj_take(&mut rest, &k4);
        proof {
            if t4 is None {
                crate::json::lemma_remove_key_absent(r3, "slotPrefix"@);
            }
            assert(emodel(rest@) =~= remove_key(r3, "slotPrefix"@));
        }
        let ct_json = match connection_type {
            Some(s) => Json::Str(s),
            None => Json::Null,
        };
        let mut entries: Vec<(String, Json)> = Vec::new();
        entries.push((k1, ct_json));
        entries.push((k2, Json::Str(device_model)));
        entries.push((k3, Json::Str(device_type)));
        entries.push((k4, Json::Str(slot_prefix)));
        entries.append(&mut rest);
        let ghost ef = emodel(entries@);
        let r = Json::Obj(entries);
        proof {
            assert(r@->Obj_0 =~= ef);
            assert(ef =~= seq![
                (
                    "connectionType"@,
                    match sv.connection_type {
                        Some(s) => JVal::Str(s),
                        None => JVal::Null,
                    },
                ),
                ("deviceModel"@, JVal::Str(sv.device_model)),
                ("deviceType"@, JVal::Str(sv.device_type)),
                ("slotPrefix"@, JVal::Str(sv.slot_prefix)),
            ] + remove_key(r3, "slotPrefix"@));
        }
        r
    }
}

impl MigrationDevice {
    /// Decodes a migration-report record: `deviceName` and `modelId` come
    /// out, everything else stays in the remainder.
    pub fn decode(v: Json) -> (r: Result<MigrationDevice, SchemaError>)
        ensures
            res_model(r) == decode_migration_device(v@),
    {
        let ghost vv = v@;
        match v {
            Json::Obj(mut entries) => {
                proof {
                    assert(vv->Obj_0 =~= emodel(entries@));
                }
                let ghost e0 = emodel(entries@);
                let dn_key = lit("deviceName");
                let device_name: String = match obj_take(&mut entries, &dn_key) {
                    Some(Json::Str(s)) => s,
                    Some(j) => {
                        proof {
                            assert(lookup(e0, "deviceName"@) == Some(j@));
                        }
                        return Err(SchemaError::WrongShape(dn_key));
                    },
                    None => {
                        proof {
                            crate::json::lemma_lookup_has_key(e0, "deviceName"@);
                        }
                        return Err(SchemaError::MissingField(dn_key));
                    },
                };
                let ghost e1 = remove_key(e0, "deviceName"@);
                proof {
                    assert(emodel(entries@) == e1);
                    assert(take_str_field(e0, "deviceName"@) == Ok::<_, SchemaErrorV>(
                        (device_name@, e1),
                    ));
                }
                let mi_key = lit("modelId");
                let model_id: String = match obj_take(&mut entries, &mi_key) {
                    Some(Json::Str(s)) => s,
                    Some(j) => {
                        proof {
                            assert(lookup(e1, "modelId"@) == Some(j@));
                        }
                        return Err(SchemaError::WrongShape(mi_key));
                    },
                    None => {
                        proof {
                            crate::json::lemma_lookup_has_key(e1, "modelId"@);
                        }
                        return Err(SchemaError::MissingField(mi_key));
                    },
                };
                proof {
                    assert(take_str_field(e1, "modelId"@) == Ok::<_, SchemaErrorV>(
                        (model_id@, remove_key(e1, "modelId"@)),
                    ));
                }
                Ok(MigrationDevice { device_name, model_id, rest: entries })
            },
            _ => Err(SchemaError::WrongShape(lit("migration device"))),
        }
    }

    /// Encodes a migration-report record back to a JSON object.
    pub fn encode(self) -> (r: Json)
        ensures
            r@ == encode_migration_device(self@),
    {
        let ghost sv = self@;
        let MigrationDevice { device_name, model_id, mut rest } = self;
        let ghost r0 = emodel(rest@);
        let k1 = lit("deviceName");
        let t1 = obj_take(&mut rest, &k1);
        proof {
            if t1 is None {
                crate::json::lemma_remove_key_absent(r0, "deviceName"@);
            }
        }
        let ghost r1 = remove_key(r0, "deviceName"@);
        let k2 = lit("modelId");
        let t2 = obj_take(&mut rest, &k2);
        proof {
            if t2 is None {
                crate::json::lemma_remove_key_absent(r1, "modelId"@);
            }
            assert(emodel(rest@) =~= remove_key(r1, "modelId"@));
        }
        let mut entries: Vec<(String, Json)> = Vec::new();
        entries.push((k1, Json::Str(device_name)));
        entries.push((k2, Json::Str(model_id)));
        entries.append(&mut rest);
        let ghost ef = emodel(entries@);
        let r = Json::Obj(entries);
        proof {
            assert(r@->Obj_0 =~= ef);
            assert(ef =~= seq![
                ("deviceName"@, JVal::Str(sv.device_name)),
                ("modelId"@, JVal::Str(sv.model_id)),
            ] + remove_key(r1, "modelId"@));
        }
        r
    }
}

/// Decodes each item of `items` as a connected device, stopping at the
/// first failure.
#[verifier::loop_isolation(false)]
fn decode_connected_device_vec(items: Vec<Json>) -> (r: Result<Vec<ConnectedDevice>, SchemaError>)
    ensures
        (match r {
            Ok(out) => decode_connected_device_list(amodel(items@)) == Ok::<_, SchemaErrorV>(
                vm(out@),
            ),
            Err(e) => decode_connected_device_list(amodel(items@)) == Err::<
                Seq<ConnectedDeviceV>,
                _,
            >(e@),
        }),
{
    let ghost orig = amodel(items@);
    let mut items = items;
    let mut out: Vec<ConnectedDevice> = Vec::new();
    proof {
        assert(amodel(items@) =~= orig);
        assert(vm(out@) =~= Seq::<ConnectedDeviceV>::empty());
    }
    while items.len() != 0
        invariant
            (match decode_connected_device_list(amodel(items@)) {
                Ok(t) => decode_connected_device_list(orig) == Ok::<_, SchemaErrorV>(
                    vm(out@) + t,
                ),
                Err(e) => decode_connected_device_list(orig) == Err::<Seq<ConnectedDeviceV>, _>(
                    e,
                ),
            }),
        decreases items@.len(),
    {
        let ghost s = amodel(items@);
        let ghost done = vm(out@);
        let j = items.remove(0);
        proof {
            assert(j@ == s[0]);
            assert(amodel(items@) =~= s.drop_first());
        }
        match ConnectedDevice::decode(j) {
            Err(e) => {
                proof {
                    assert(decode_connected_device_list(s) == Err::<Seq<ConnectedDeviceV>, _>(
                        e@,
                    ));
                }
                return Err(e);
            },
            Ok(a) => {
                out.push(a);
                proof {
                    assert(vm(out@) =~= done.push(a@));
                    match decode_connected_device_list(s.drop_first()) {
                        Ok(t) => {
                            assert(decode_connected_device_list(s) == Ok::<_, SchemaErrorV>(
                                seq![a@] + t,
                            ));
                            assert(done + (seq![a@] + t) =~= done.push(a@) + t);
                        },
                        Err(e) => {
                            assert(decode_connected_device_list(s) == Err::<
                                Seq<ConnectedDeviceV>,
                                _,
                            >(e));
                        },
                    }
                }
            },
        }
    }
    proof {
        assert(amodel(items@).len() == 0);
        assert(decode_connected_device_list(amodel(items@)) == Ok::<_, SchemaErrorV>(
            Seq::<ConnectedDeviceV>::empty(),
        ));
        assert(vm(out@) + Seq::<ConnectedDeviceV>::empty() =~= vm(out@));
    }
    Ok(out)
}

/// Decodes each item of `items` as a migration-report record, stopping at
/// the first failure.
#[verifier::loop_isolation(false)]
fn decode_migration_device_vec(items: Vec<Json>) -> (r: Result<Vec<MigrationDevice>, SchemaError>)
    ensures
        (match r {
            Ok(out) => decode_migration_device_list(amodel(items@)) == Ok::<_, SchemaErrorV>(
                vm(out@),
            ),
            Err(e) => decode_migration_device_list(amodel(items@)) == Err::<
                Seq<MigrationDeviceV>,
                _,
            >(e@),
        }),
{
    let ghost orig = amodel(items@);
    let mut items = items;
    let mut out: Vec<MigrationDevice> = Vec::new();
    proof {
        assert(amodel(items@) =~= orig);
        assert(vm(out@) =~= Seq::<MigrationDeviceV>::empty());
    }
    while items.len() != 0
        invariant
            (match decode_migration_device_list(amodel(items@)) {
                Ok(t) => decode_migration_device_list(orig) == Ok::<_, SchemaErrorV>(
                    vm(out@) + t,
                ),
                Err(e) => decode_migration_device_list(orig) == Err::<Seq<MigrationDeviceV>, _>(
                    e,
                ),
            }),
        decreases items@.len(),
    {
        let ghost s = amodel(items@);
        let ghost done = vm(out@);
        let j = items.remove(0);
        proof {
            assert(j@ == s[0]);
            assert(amodel(items@) =~= s.drop_first());
        }
        match MigrationDevice::decode(j) {
            Err(e) => {
                proof {
                    assert(decode_migration_device_list(s) == Err::<Seq<MigrationDeviceV>, _>(
                        e@,
                    ));
                }
                return Err(e);
            },
            Ok(a) => {
                out.push(a);
                proof {
                    assert(vm(out@) =~= done.push(a@));
                    match decode_migration_device_list(s.drop_first()) {
                        Ok(t) => {
                            assert(decode_migration_device_list(s) == Ok::<_, SchemaErrorV>(
                                seq![a@] + t,
                            ));
                            assert(done + (seq![a@] + t) =~= done.push(a@) + t);
                        },
                        Err(e) => {
                            assert(decode_migration_device_list(s) == Err::<
                                Seq<MigrationDeviceV>,
                                _,
                            >(e));
                        },
                    }
                }
            },
        }
    }
    proof {
        assert(amodel(items@).len() == 0);
        assert(decode_migration_device_list(amodel(items@)) == Ok::<_, SchemaErrorV>(
            Seq::<MigrationDeviceV>::empty(),
        ));
        assert(vm(out@) + Seq::<MigrationDeviceV>::empty() =~= vm(out@));
    }
    Ok(out)
}

/// Encodes each connected device of `list`, in order.
#[verifier::loop_isolation(false)]
fn encode_connected_device_vec(list: Vec<ConnectedDevice>) -> (r: Vec<Json>)
    ensures
        amodel(r@) == vm(list@).map_values(|d: ConnectedDeviceV| encode_connected_device(d)),
{
    let ghost orig = vm(list@);
    let ghost target = vm(list@).map_values(|d: ConnectedDeviceV| encode_connected_device(d));
    let mut list = list;
    let mut out: Vec<Json> = Vec::new();
    let ghost n = orig.len();
    while list.len() != 0
        invariant
            vm(list@) =~= orig.skip(n - list@.len() as int),
            0 <= n - list@.len() as int <= n,
            amodel(out@) =~= target.take(n - list@.len() as int),
        decreases list@.len(),
    {
        let ghost i = n - list@.len() as int;
        let ghost done = amodel(out@);
        let ghost lh = list@;
        let a = list.remove(0);
        proof {
            assert(vm(lh)[0] == lh[0]@);
            assert(orig.skip(i)[0] == orig[i]);
            assert(a@ == orig[i]);
            assert forall|j: int| 0 <= j < list@.len() implies vm(list@)[j] == orig.skip(
                i + 1,
            )[j] by {
                assert(list@[j] == lh[j + 1]);
                assert(vm(lh)[j + 1] == lh[j + 1]@);
                assert(orig.skip(i)[j + 1] == orig[i + 1 + j]);
            }
            assert(vm(list@) =~= orig.skip(i + 1));
        }
        let e = a.encode();
        out.push(e);
        proof {
            assert(amodel(out@) =~= done.push(e@));
            assert(target[i] == encode_connected_device(orig[i]));
            assert(amodel(out@) =~= target.take(i + 1));
        }
    }
    proof {
        assert(amodel(out@) =~= target);
    }
    out
}

/// Encodes each migration-report record of `list`, in order.
#[verifier::loop_isolation(false)]
fn encode_migration_device_vec(list: Vec<MigrationDevice>) -> (r: Vec<Json>)
    ensures
        amodel(r@) == vm(list@).map_values(|d: MigrationDeviceV| encode_migration_device(d)),
{
    let ghost orig = vm(list@);
    let ghost target = vm(list@).map_values(|d: MigrationDeviceV| encode_migration_device(d));
    let mut list = list;
    let mut out: Vec<Json> = Vec::new();
    let ghost n = orig.len();
    while list.len() != 0
        invariant
            vm(list@) =~= orig.skip(n - list@.len() as int),
            0 <= n - list@.len() as int <= n,
            amodel(out@) =~= target.take(n - list@.len() as int),
        decreases list@.len(),
    {
        let ghost i = n - list@.len() as int;
        let ghost done = amodel(out@);
        let ghost lh = list@;
        let a = list.remove(0);
        proof {
            assert(vm(lh)[0] == lh[0]@);
            assert(orig.skip(i)[0] == orig[i]);
            assert(a@ == orig[i]);
            assert forall|j: int| 0 <= j < list@.len() implies vm(list@)[j] == orig.skip(
                i + 1,
            )[j] by {
                assert(list@[j] == lh[j + 1]);
                assert(vm(lh)[j + 1] == lh[j + 1]@);
                assert(orig.skip(i)[j + 1] == orig[i + 1 + j]);
            }
            assert(vm(list@) =~= orig.skip(i + 1));
        }
        let e = a.encode();
        out.push(e);
        proof {
            assert(amodel(out@) =~= done.push(e@));
            assert(target[i] == encode_migration_device(orig[i]));
            assert(amodel(out@) =~= target.take(i + 1));
        }
    }
    proof {
        assert(amodel(out@) =~= target);
    }
    out
}

impl EverConnectedDevices {
    /// Decodes the device history: `devices` becomes the typed list and
    /// every other entry stays in the remainder.
    pub fn decode(v: Json) -> (r: Result<EverConnectedDevices, SchemaError>)
        ensures
            res_model(r) == decode_ever_connected_devices(v@),
    {
        let ghost vv = v@;
        match v {
            Json::Obj(mut entries) => {
                proof {
                    assert(vv->Obj_0 =~= emodel(entries@));
                }
                let ghost e0 = emodel(entries@);
                let key = lit("devices");
                match obj_take(&mut entries, &key) {
                    Some(Json::Arr(items)) => {
                        proof {
                            assert(Json::Arr(items)@->Arr_0 =~= amodel(items@));
                            assert(lookup(e0, "devices"@) == Some(JVal::Arr(amodel(items@))));
                            assert(emodel(entries@) == remove_key(e0, "devices"@));
                        }
                        match decode_connected_device_vec(items) {
                            Ok(devices) => Ok(EverConnectedDevices { devices, rest: entries }),
                            Err(e) => Err(e),
                        }
                    },
                    Some(j) => {
                        proof {
                            assert(lookup(e0, "devices"@) == Some(j@));
                        }
                        Err(SchemaError::WrongShape(key))
                    },
                    None => {
                        proof {
                            crate::json::lemma_lookup_has_key(e0, "devices"@);
                        }
                        Err(SchemaError::MissingField(key))
                    },
                }
            },
            _ => Err(SchemaError::WrongShape(lit("ever_connected_devices"))),
        }
    }

    /// Encodes the device history back to a JSON object.
    pub fn encode(self) -> (r: Json)
        ensures
            r@ == encode_ever_connected_devices(self@),
    {
        let ghost sv = self@;
        let EverConnectedDevices { devices, mut rest } = self;
        let ghost r0 = emodel(rest@);
        let key = lit("devices");
        let taken = obj_take(&mut rest, &key);
        proof {
            if taken is None {
                crate::json::lemma_remove_key_absent(r0, "devices"@);
            }
            assert(emodel(rest@) =~= remove_key(r0, "devices"@));
        }
        let items = encode_connected_device_vec(devices);
        let arr = Json::Arr(items);
        proof {
            assert(arr@->Arr_0 =~= amodel(arr->Arr_0@));
        }
        let mut entries: Vec<(String, Json)> = Vec::new();
        entries.push((key, arr));
        entries.append(&mut rest);
        let ghost ef = emodel(entries@);
        let r = Json::Obj(entries);
        proof {
            assert(r@->Obj_0 =~= ef);
            assert(ef =~= seq![
                (
                    "devices"@,
                    JVal::Arr(
                        sv.devices.map_values(|d: ConnectedDeviceV| encode_connected_device(d)),
                    ),
                ),
            ] + remove_key(sv.rest, "devices"@));
        }
        r
    }
}

impl MigrationReport {
    /// Decodes the migration report: `devices` becomes the typed list and
    /// every other entry stays in the remainder.
    pub fn decode(v: Json) -> (r: Result<MigrationReport, SchemaError>)
        ensures
            res_model(r) == decode_migration_report(v@),
    {
        let ghost vv = v@;
        match v {
            Json::Obj(mut entries) => {
                proof {
                    assert(vv->Obj_0 =~= emodel(entries@));
                }
                let ghost e0 = emodel(entries@);
                let key = lit("devices");
                match obj_take(&mut entries, &key) {
                    Some(Json::Arr(items)) => {
                        proof {
                            assert(Json::Arr(items)@->Arr_0 =~= amodel(items@));
                            assert(lookup(e0, "devices"@) == Some(JVal::Arr(amodel(items@))));
                            assert(emodel(entries@) == remove_key(e0, "devices"@));
                        }
                        match decode_migration_device_vec(items) {
                            Ok(devices) => Ok(MigrationReport { devices, rest: entries }),
                            Err(e) => Err(e),
                        }
                    },
                    Some(j) => {
                        proof {
                            assert(lookup(e0, "devices"@) == Some(j@));
                        }
                        Err(SchemaError::WrongShape(key))
                    },
                    None => {
                        proof {
                            crate::json::lemma_lookup_has_key(e0, "devices"@);
                        }
                        Err(SchemaError::MissingField(key))
                    },
                }
            },
            _ => Err(SchemaError::WrongShape(lit("migration_report"))),
        }
    }

    /// Encodes the migration report back to a JSON object.
    pub fn encode(self) -> (r: Json)
        ensures
            r@ == encode_migration_report(self@),
    {
        let ghost sv = self@;
        let MigrationReport { devices, mut rest } = self;
        let ghost r0 = emodel(rest@);
        let key = lit("devices");
        let taken = obj_take(&mut rest, &key);
        proof {
            if taken is None {
                crate::json::lemma_remove_key_absent(r0, "devices"@);
            }
            assert(emodel(rest@) =~= remove_key(r0, "devices"@));
        }
        let items = encode_migration_device_vec(devices);
        let arr = Json::Arr(items);
        proof {
            assert(arr@->Arr_0 =~= amodel(arr->Arr_0@));
        }
        let mut entries: Vec<(String, Json)> = Vec::new();
        entries.push((key, arr));
        entries.append(&mut rest);
        let ghost ef = emodel(entries@);
        let r = Json::Obj(entries);
        proof {
            assert(r@->Obj_0 =~= ef);
            assert(ef =~= seq![
                (
                    "devices"@,
                    JVal::Arr(
                        sv.devices.map_values(|d: MigrationDeviceV| encode_migration_device(d)),
                    ),
                ),
            ] + remove_key(sv.rest, "devices"@));
        }
        r
    }
}

pub open spec fn encode_settings(s: SettingsV) -> JVal {
    JVal::Obj(
        seq![
            ("profile_keys"@, JVal::Arr(s.profile_keys.map_values(|k: Seq<char>| JVal::Str(k)))),
            ("ever_connected_devices"@, encode_ever_connected_devices(s.ever_connected_devices)),
            ("migration_report"@, encode_migration_report(s.migration_report)),
        ] + demote(
            s.profiles,
            remove_key(
                remove_key(remove_key(s.rest, "profile_keys"@), "ever_connected_devices"@),
                "migration_report"@,
            ),
        ),
    )
}

/// Decodes each item of `items` as a profile-name string, stopping at the
/// first failure.
#[verifier::loop_isolation(false)]
fn decode_profile_name_vec(items: Vec<Json>) -> (r: Result<Vec<String>, SchemaError>)
    ensures
        (match r {
            Ok(out) => decode_profile_name_list(amodel(items@)) == Ok::<_, SchemaErrorV>(
                vm(out@),
            ),
            Err(e) => decode_profile_name_list(amodel(items@)) == Err::<Seq<Seq<char>>, _>(e@),
        }),
{
    let ghost orig = amodel(items@);
    let mut items = items;
    let mut out: Vec<String> = Vec::new();
    proof {
        assert(amodel(items@) =~= orig);
        assert(vm(out@) =~= Seq::<Seq<char>>::empty());
    }
    while items.len() != 0
        invariant
            (match decode_profile_name_list(amodel(items@)) {
                Ok(t) => decode_profile_name_list(orig) == Ok::<_, SchemaErrorV>(vm(out@) + t),
                Err(e) => decode_profile_name_list(orig) == Err::<Seq<Seq<char>>, _>(e),
            }),
        decreases items@.len(),
    {
        let ghost s = amodel(items@);
        let ghost done = vm(out@);
        let j = items.remove(0);
        proof {
            assert(j@ == s[0]);
            assert(amodel(items@) =~= s.drop_first());
        }
        match j {
            Json::Str(name) => {
                proof {
                    assert(decode_profile_name(s[0]) == Ok::<_, SchemaErrorV>(name@));
                }
                out.push(name);
                proof {
                    assert(vm(out@) =~= done.push(s[0]->Str_0));
                    match decode_profile_name_list(s.drop_first()) {
                        Ok(t) => {
                            assert(decode_profile_name_list(s) == Ok::<_, SchemaErrorV>(
                                seq![s[0]->Str_0] + t,
                            ));
                            assert(done + (seq![s[0]->Str_0] + t) =~= done.push(s[0]->Str_0)
                                + t);
                        },
                        Err(e) => {
                            assert(decode_profile_name_list(s) == Err::<Seq<Seq<char>>, _>(e));
                        },
                    }
                }
            },
            _ => {
                proof {
                    assert(decode_profile_name_list(s) == Err::<Seq<Seq<char>>, _>(
                        SchemaErrorV::WrongShape("profile_keys"@),
                    ));
                }
                return Err(SchemaError::WrongShape(lit("profile_keys")));
            },
        }
    }
    proof {
        assert(amodel(items@).len() == 0);
        assert(decode_profile_name_list(amodel(items@)) == Ok::<_, SchemaErrorV>(
            Seq::<Seq<char>>::empty(),
        ));
        assert(vm(out@) + Seq::<Seq<char>>::empty() =~= vm(out@));
    }
    Ok(out)
}

/// Encodes each profile name of `list` as a JSON string, in order.
#[verifier::loop_isolation(false)]
fn encode_profile_name_vec(list: Vec<String>) -> (r: Vec<Json>)
    ensures
        amodel(r@) == vm(list@).map_values(|k: Seq<char>| JVal::Str(k)),
{
    let ghost orig = vm(list@);
    let ghost target = vm(list@).map_values(|k: Seq<char>| JVal::Str(k));
    let mut list = list;
    let mut out: Vec<Json> = Vec::new();
    let ghost n = orig.len();
    while list.len() != 0
        invariant
            vm(list@) =~= orig.skip(n - list@.len() as int),
            0 <= n - list@.len() as int <= n,
            amodel(out@) =~= target.take(n - list@.len() as int),
        decreases list@.len(),
    {
        let ghost i = n - list@.len() as int;
        let ghost done = amodel(out@);
        let ghost lh = list@;
        let a = list.remove(0);
        proof {
            assert(vm(lh)[0] == lh[0]@);
            assert(orig.skip(i)[0] == orig[i]);
            assert(a@ == orig[i]);
            assert forall|j: int| 0 <= j < list@.len() implies vm(list@)[j] == orig.skip(
                i + 1,
            )[j] by {
                assert(list@[j] == lh[j + 1]);
                assert(vm(lh)[j + 1] == lh[j + 1]@);
                assert(orig.skip(i)[j + 1] == orig[i + 1 + j]);
            }
            assert(vm(list@) =~= orig.skip(i + 1));
        }
        let e = Json::Str(a);
        out.push(e);
        proof {
            assert(amodel(out@) =~= done.push(e@));
            assert(target[i] == JVal::Str(orig[i]));
            assert(amodel(out@) =~= target.take(i + 1));
        }
    }
    proof {
        assert(amodel(out@) =~= target);
    }
    out
}

impl Settings {
    /// Decodes the whole settings document: the three typed fields come out
    /// first, then one remainder entry per `profile_keys` name is promoted
    /// into the typed profile map. Everything else stays in the remainder.
    #[verifier::loop_isolation(false)]
    pub fn decode(v: Json) -> (r: Result<Settings, SchemaError>)
        ensures
            res_model(r) == decode_settings(v@),
    {
        let ghost vv = v@;
        match v {
            Json::Obj(mut entries) => {
                proof {
                    assert(vv->Obj_0 =~= emodel(entries@));
                }
                let ghost e0 = emodel(entries@);
                let pk_key = lit("profile_keys");
                let keys_json: Vec<Json> = match obj_take(&mut entries, &pk_key) {
                    Some(Json::Arr(items)) => {
                        proof {
                            assert(Json::Arr(items)@->Arr_0 =~= amodel(items@));
                            assert(lookup(e0, "profile_keys"@) == Some(
                                JVal::Arr(amodel(items@)),
                            ));
                        }
                        items
                    },
                    Some(j) => {
                        proof {
                            assert(lookup(e0, "profile_keys"@) == Some(j@));
                        }
                        return Err(SchemaError::WrongShape(pk_key));
                    },
                    None => {
                        proof {
                            crate::json::lemma_lookup_has_key(e0, "profile_keys"@);
                        }
                        return Err(SchemaError::MissingField(pk_key));
                    },
                };
                let ghost e1 = remove_key(e0, "profile_keys"@);
                proof {
                    assert(emodel(entries@) == e1);
                    assert(take_arr_field(e0, "profile_keys"@) == Ok::<_, SchemaErrorV>(
                        (amodel(keys_json@), e1),
                    ));
                }
                let profile_keys: Vec<String> = match decode_profile_name_vec(keys_json) {
                    Ok(ks) => ks,
                    Err(e) => {
                        return Err(e);
                    },
                };
                let ghost keysm = vm(profile_keys@);
                let ecd_key = lit("ever_connected_devices");
                let ecd_json: Json = match obj_take(&mut entries, &ecd_key) {
                    Some(j) => j,
                    None => {
                        proof {
                            crate::json::lemma_lookup_has_key(e1, "ever_connected_devices"@);
                        }
                        return Err(SchemaError::MissingField(ecd_key));
                    },
                };
                let ghost e2 = remove_key(e1, "ever_connected_devices"@);
                proof {
                    assert(emodel(entries@) == e2);
                    assert(lookup(e1, "ever_connected_devices"@) == Some(ecd_json@));
                }
                let ecd = match EverConnectedDevices::decode(ecd_json) {
                    Ok(x) => x,
                    Err(e) => {
                        return Err(e);
                    },
                };
                let mr_key = lit("migration_report");
                let mr_json: Json = match obj_take(&mut entries, &mr_key) {
                    Some(j) => j,
                    None => {
                        proof {
                            crate::json::lemma_lookup_has_key(e2, "migration_report"@);
                        }
                        return Err(SchemaError::MissingField(mr_key));
                    },
                };
                let ghost e3 = remove_key(e2, "migration_report"@);
                proof {
                    assert(emodel(entries@) == e3);
                    assert(lookup(e2, "migration_report"@) == Some(mr_json@));
                }
                let mr = match MigrationReport::decode(mr_json) {
                    Ok(x) => x,
                    Err(e) => {
                        return Err(e);
                    },
                };
                let mut profiles: Vec<(String, Profile)> = Vec::new();
                let mut i: usize = 0;
                proof {
                    assert(keysm.skip(0) =~= keysm);
                    assert(pvm(profiles@) =~= Seq::<(Seq<char>, ProfileV)>::empty());
                }
                while i < profile_keys.len()
                    invariant
                        i <= profile_keys@.len(),
                        keysm == vm(profile_keys@),
                        (match promote(emodel(entries@), keysm.skip(i as int)) {
                            Ok(pr) => promote(e3, keysm) == Ok::<_, SchemaErrorV>(
                                (pvm(profiles@) + pr.0, pr.1),
                            ),
                            Err(e) => promote(e3, keysm) == Err::<
                                (Seq<(Seq<char>, ProfileV)>, Seq<(Seq<char>, JVal)>),
                                _,
                            >(e),
                        }),
                    decreases profile_keys@.len() - i,
                {
                    let ghost bag = emodel(entries@);
                    let ghost done = pvm(profiles@);
                    let ghost rem = keysm.skip(i as int);
                    proof {
                        assert(vm(profile_keys@)[i as int] == profile_keys@[i as int]@);
                        assert(rem[0] == keysm[i as int]);
                        assert(rem.drop_first() =~= keysm.skip(i as int + 1));
                    }
                    match obj_take(&mut entries, &profile_keys[i]) {
                        None => {
                            proof {
                                crate::json::lemma_lookup_has_key(bag, rem[0]);
                                assert(promote(bag, rem) == Err::<
                                    (Seq<(Seq<char>, ProfileV)>, Seq<(Seq<char>, JVal)>),
                                    _,
                                >(SchemaErrorV::MissingProfile(rem[0])));
                            }
                            return Err(SchemaError::MissingProfile(profile_keys[i].clone()));
                        },
                        Some(pj) => {
                            proof {
                                assert(lookup(bag, rem[0]) == Some(pj@));
                                assert(emodel(entries@) == remove_key(bag, rem[0]));
                            }
                            match Profile::decode(pj) {
                                Err(e) => {
                                    proof {
                                        assert(promote(bag, rem) == Err::<
                                            (Seq<(Seq<char>, ProfileV)>, Seq<(Seq<char>, JVal)>),
                                            _,
                                        >(e@));
                                    }
                                    return Err(e);
                                },
                                Ok(p) => {
                                    let name = profile_keys[i].clone();
                                    let ghost pm = p@;
                                    profiles.push((name, p));
                                    i = i + 1;
                                    proof {
                                        assert(pvm(profiles@) =~= done.push((rem[0], pm)));
                                        match promote(remove_key(bag, rem[0]), rem.drop_first()) {
                                            Ok(pr) => {
                                                assert(promote(bag, rem) == Ok::<_, SchemaErrorV>(
                                                    (seq![(rem[0], pm)] + pr.0, pr.1),
                                                ));
                                                assert(done + (seq![(rem[0], pm)] + pr.0)
                                                    =~= done.push((rem[0], pm)) + pr.0);
                                            },
                                            Err(e) => {
                                                assert(promote(bag, rem) == Err::<
                                                    (
                                                        Seq<(Seq<char>, ProfileV)>,
                                                        Seq<(Seq<char>, JVal)>,
                                                    ),
                                                    _,
                                                >(e));
                                            },
                                        }
                                    }
                                },
                            }
                        },
                    }
                }
                let s = Settings {
                    profile_keys,
                    profiles,
                    ever_connected_devices: ecd,
                    migration_report: mr,
                    rest: entries,
                };
                proof {
                    assert(keysm.skip(s.profile_keys@.len() as int).len() == 0);
                    assert(promote(emodel(s.rest@), keysm.skip(s.profile_keys@.len() as int))
                        == Ok::<_, SchemaErrorV>(
                        (Seq::<(Seq<char>, ProfileV)>::empty(), emodel(s.rest@)),
                    ));
                    assert(pvm(s.profiles@) + Seq::<(Seq<char>, ProfileV)>::empty() =~= pvm(
                        s.profiles@,
                    ));
                    assert(promote(e3, keysm) == Ok::<_, SchemaErrorV>(
                        (pvm(s.profiles@), emodel(s.rest@)),
                    ));
                }
                Ok(s)
            },
            _ => Err(SchemaError::WrongShape(lit("settings"))),
        }
    }

    /// Encodes the whole settings document: the three typed fields first,
    /// then the remainder with each profile demoted back under its name.
    #[verifier::loop_isolation(false)]
    pub fn encode(self) -> (r: Json)
        ensures
            r@ == encode_settings(self@),
    {
        let ghost sv = self@;
        let Settings { profile_keys, profiles, ever_connected_devices, migration_report, mut rest } =
            self;
        let ghost r0 = emodel(rest@);
        let k1 = lit("profile_keys");
        let t1 = obj_take(&mut rest, &k1);
        proof {
            if t1 is None {
                crate::json::lemma_remove_key_absent(r0, "profile_keys"@);
            }
        }
        let ghost r1 = remove_key(r0, "profile_keys"@);
        let k2 = lit("ever_connected_devices");
        let t2 = obj_take(&mut rest, &k2);
        proof {
            if t2 is None {
                crate::json::lemma_remove_key_absent(r1, "ever_connected_devices"@);
            }
        }
        let ghost r2 = remove_key(r1, "ever_connected_devices"@);
        let k3 = lit("migration_report");
        let t3 = obj_take(&mut rest, &k3);
        proof {
            if t3 is None {
                crate::json::lemma_remove_key_absent(r2, "migration_report"@);
            }
        }
        let ghost r3 = remove_key(r2, "migration_report"@);
        proof {
            assert(emodel(rest@) == r3);
        }
        let ghost ps0 = pvm(profiles@);
        let mut ps = profiles;
        proof {
            assert(pvm(ps@) =~= ps0);
        }
        while ps.len() != 0
            invariant
                demote(ps0, r3) == demote(pvm(ps@), emodel(rest@)),
            decreases ps@.len(),
        {
            let ghost bag = emodel(rest@);
            let ghost lh = ps@;
            let pair = ps.remove(0);
            proof {
                assert(pvm(lh)[0] == (lh[0].0@, lh[0].1@));
                assert forall|j: int| 0 <= j < ps@.len() implies pvm(ps@)[j] == pvm(
                    lh,
                ).drop_first()[j] by {
                    assert(ps@[j] == lh[j + 1]);
                    assert(pvm(lh)[j + 1] == (lh[j + 1].0@, lh[j + 1].1@));
                }
                assert(pvm(ps@) =~= pvm(lh).drop_first());
            }
            let (name, p) = pair;
            let ghost pm = p@;
            let encoded = p.encode();
            obj_insert(&mut rest, name, encoded);
            proof {
                assert(emodel(rest@) == insert_entry(bag, lh[0].0@, encode_profile(pm)));
                assert(demote(pvm(lh), bag) == demote(
                    pvm(lh).drop_first(),
                    insert_entry(bag, pvm(lh)[0].0, encode_profile(pvm(lh)[0].1)),
                ));
            }
        }
        proof {
            assert(pvm(ps@).len() == 0);
            assert(demote(pvm(ps@), emodel(rest@)) == emodel(rest@));
            assert(demote(ps0, r3) == emodel(rest@));
        }
        let keys_json = encode_profile_name_vec(profile_keys);
        let pk_arr = Json::Arr(keys_json);
        proof {
            assert(pk_arr@->Arr_0 =~= amodel(pk_arr->Arr_0@));
        }
        let ecd_json = ever_connected_devices.encode();
        let mr_json = migration_report.encode();
        let mut entries: Vec<(String, Json)> = Vec::new();
        entries.push((k1, pk_arr));
        entries.push((k2, ecd_json));
        entries.push((k3, mr_json));
        entries.append(&mut rest);
        let ghost ef = emodel(entries@);
        let r = Json::Obj(entries);
        proof {
            assert(r@->Obj_0 =~= ef);
            assert(ef =~= seq![
                (
                    "profile_keys"@,
                    JVal::Arr(sv.profile_keys.map_values(|k: Seq<char>| JVal::Str(k))),
                ),
                (
                    "ever_connected_devices"@,
                    encode_ever_connected_devices(sv.ever_connected_devices),
                ),
                ("migration_report"@, encode_migration_report(sv.migration_report)),
            ] + demote(sv.profiles, r3));
        }
        r
    }
}

} // verus!
