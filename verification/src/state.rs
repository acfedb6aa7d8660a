//! Deriving the starting inventory from a tabular state snapshot, and
//! applying per-unit overrides.
//!
//! Four tables are read: `v_unit` (declared units), `v_aircraft` (rows
//! with status FMC count), `v_payload` (one payload instance per row),
//! and `v_staffing` (MOS 7318 pilots, 7314 sensor operators).  Unknown
//! tables, fields, and incomplete rows are ignored.  Units are the
//! union of names seen in any table, in first-appearance order.

use vstd::pervasive::VecAdditionalExecFns;
use vstd::prelude::*;

use crate::types::{CrewCounts, InitialResources, MissionType, Overrides, State, StateRow, StateTable, UnitOverrides};
use crate::util::{sat_add, sat_add_u32};

verus! {

/// The mathematical shape of an inventory: names as character
/// sequences, parallel by unit index.
pub ghost struct InitialView {
    pub units: Seq<Seq<char>>,
    pub aircraft: Seq<u32>,
    pub crew: Seq<CrewCounts>,
    pub payload: Seq<Seq<(Seq<char>, u32)>>,
    pub overrides_applied: bool,
}

impl InitialView {
    pub open spec fn wf(self) -> bool {
        &&& self.aircraft.len() == self.units.len()
        &&& self.crew.len() == self.units.len()
        &&& self.payload.len() == self.units.len()
    }
}

/// The association-list view of a payload count vector.
pub open spec fn payload_view(v: Seq<(String, u32)>) -> Seq<(Seq<char>, u32)> {
    v.map_values(|p: (String, u32)| (p.0@, p.1))
}

impl View for InitialResources {
    type V = InitialView;

    open spec fn view(&self) -> InitialView {
        InitialView {
            units: self.units.deep_view(),
            aircraft: self.aircraft_by_unit@,
            crew: self.crew_by_unit@,
            payload: self.payload_by_unit@.map_values(|v: Vec<(String, u32)>| payload_view(v@)),
            overrides_applied: self.overrides_applied,
        }
    }
}

/// The value of the first field named `key` in a row, scanning from
/// position `i`.
pub open spec fn row_val_from(fields: Seq<(String, String)>, key: Seq<char>, i: int) -> Option<
    Seq<char>,
>
    decreases fields.len() - i,
{
    if i < 0 || i >= fields.len() {
        Option::None
    } else if fields[i].0@ == key {
        Option::Some(fields[i].1@)
    } else {
        row_val_from(fields, key, i + 1)
    }
}

/// The value of the first field named `key` in a row.
pub open spec fn row_val(r: StateRow, key: Seq<char>) -> Option<Seq<char>> {
    row_val_from(r.fields@, key, 0)
}

/// The rows of the first table named `name`, scanning from position
/// `i`; no such table reads as empty.
pub open spec fn table_rows_from(
    tables: Seq<(String, crate::types::StateTable)>,
    name: Seq<char>,
    i: int,
) -> Seq<StateRow>
    decreases tables.len() - i,
{
    if i < 0 || i >= tables.len() {
        Seq::<StateRow>::empty()
    } else if tables[i].0@ == name {
        tables[i].1.rows@
    } else {
        table_rows_from(tables, name, i + 1)
    }
}

/// The rows of the first table named `name`.
pub open spec fn table_rows(s: State, name: Seq<char>) -> Seq<StateRow> {
    table_rows_from(s.tables@, name, 0)
}

/// A name appended unless already present.
pub open spec fn push_unique(acc: Seq<Seq<char>>, name: Seq<char>) -> Seq<Seq<char>> {
    if acc.contains(name) {
        acc
    } else {
        acc.push(name)
    }
}

/// Unit names contributed by the first `n` rows of `v_unit`.
pub open spec fn units_from_unit_rows(acc: Seq<Seq<char>>, rows: Seq<StateRow>, n: int) -> Seq<
    Seq<char>,
>
    decreases n,
{
    if n <= 0 {
        acc
    } else {
        let a = units_from_unit_rows(acc, rows, n - 1);
        match row_val(rows[n - 1], "Unit"@) {
            Option::Some(u) => push_unique(a, u),
            Option::None => a,
        }
    }
}

/// Unit names contributed by the first `n` FMC aircraft rows.
pub open spec fn units_from_aircraft_rows(acc: Seq<Seq<char>>, rows: Seq<StateRow>, n: int) -> Seq<
    Seq<char>,
>
    decreases n,
{
    if n <= 0 {
        acc
    } else {
        let a = units_from_aircraft_rows(acc, rows, n - 1);
        if row_val(rows[n - 1], "Status"@) == Option::Some("FMC"@) {
            match row_val(rows[n - 1], "Unit"@) {
                Option::Some(u) => push_unique(a, u),
                Option::None => a,
            }
        } else {
            a
        }
    }
}

/// The unit a payload row belongs to, when it names a type at all.
pub open spec fn payload_row_unit(r: StateRow) -> Option<Seq<char>> {
    if row_val(r, "Type"@) is Some {
        match row_val(r, "Unit"@) {
            Option::Some(u) => Option::Some(u),
            Option::None => Option::Some("UNKNOWN"@),
        }
    } else {
        Option::None
    }
}

/// Unit names contributed by the first `n` payload rows.
pub open spec fn units_from_payload_rows(acc: Seq<Seq<char>>, rows: Seq<StateRow>, n: int) -> Seq<
    Seq<char>,
>
    decreases n,
{
    if n <= 0 {
        acc
    } else {
        let a = units_from_payload_rows(acc, rows, n - 1);
        match payload_row_unit(rows[n - 1]) {
            Option::Some(u) => push_unique(a, u),
            Option::None => a,
        }
    }
}

/// Unit names contributed by the first `n` staffing rows.
pub open spec fn units_from_staffing_rows(acc: Seq<Seq<char>>, rows: Seq<StateRow>, n: int) -> Seq<
    Seq<char>,
>
    decreases n,
{
    if n <= 0 {
        acc
    } else {
        let a = units_from_staffing_rows(acc, rows, n - 1);
        if row_val(rows[n - 1], "MOS Number"@) is Some {
            match row_val(rows[n - 1], "Unit Name"@) {
                Option::Some(u) => push_unique(a, u),
                Option::None => a,
            }
        } else {
            a
        }
    }
}

/// All unit names of a snapshot, in first-appearance order across the
/// four tables.
pub open spec fn spec_units(s: State) -> Seq<Seq<char>> {
    let u0 = units_from_unit_rows(
        Seq::<Seq<char>>::empty(),
        table_rows(s, "v_unit"@),
        table_rows(s, "v_unit"@).len() as int,
    );
    let u1 = units_from_aircraft_rows(
        u0,
        table_rows(s, "v_aircraft"@),
        table_rows(s, "v_aircraft"@).len() as int,
    );
    let u2 = units_from_payload_rows(
        u1,
        table_rows(s, "v_payload"@),
        table_rows(s, "v_payload"@).len() as int,
    );
    units_from_staffing_rows(
        u2,
        table_rows(s, "v_staffing"@),
        table_rows(s, "v_staffing"@).len() as int,
    )
}

/// FMC aircraft of a unit among the first `n` rows, capped at the
/// pool-size limit.
pub open spec fn spec_fmc_count(rows: Seq<StateRow>, n: int, unit: Seq<char>) -> u32
    decreases n,
{
    if n <= 0 {
        0
    } else {
        let c = spec_fmc_count(rows, n - 1, unit);
        if row_val(rows[n - 1], "Status"@) == Option::Some("FMC"@) && row_val(rows[n - 1], "Unit"@)
            == Option::Some(unit) {
            sat_add(c as int, 1, u32::MAX as int) as u32
        } else {
            c
        }
    }
}

/// Staff of a unit with the given MOS among the first `n` rows.
pub open spec fn spec_mos_count(rows: Seq<StateRow>, n: int, unit: Seq<char>, mos: Seq<char>) -> u32
    decreases n,
{
    if n <= 0 {
        0
    } else {
        let c = spec_mos_count(rows, n - 1, unit, mos);
        if row_val(rows[n - 1], "Unit Name"@) == Option::Some(unit) && row_val(
            rows[n - 1],
            "MOS Number"@,
        ) == Option::Some(mos) {
            sat_add(c as int, 1, u32::MAX as int) as u32
        } else {
            c
        }
    }
}

/// A payload type bumped by one in an association list, keeping the
/// first-appearance order of types.
pub open spec fn bump_type(acc: Seq<(Seq<char>, u32)>, t: Seq<char>) -> Seq<(Seq<char>, u32)>
    decreases acc.len(),
{
    if acc.len() == 0 {
        seq![(t, 1u32)]
    } else if acc[0].0 == t {
        seq![(acc[0].0, sat_add(acc[0].1 as int, 1, u32::MAX as int) as u32)] + acc.drop_first()
    } else {
        seq![acc[0]] + bump_type(acc.drop_first(), t)
    }
}

/// The payload counts of one unit from the first `n` payload rows.
pub open spec fn spec_payloads(rows: Seq<StateRow>, n: int, unit: Seq<char>) -> Seq<
    (Seq<char>, u32),
>
    decreases n,
{
    if n <= 0 {
        Seq::<(Seq<char>, u32)>::empty()
    } else {
        let a = spec_payloads(rows, n - 1, unit);
        if payload_row_unit(rows[n - 1]) == Option::Some(unit) {
            bump_type(a, row_val(rows[n - 1], "Type"@).unwrap())
        } else {
            a
        }
    }
}

/// The whole derived inventory of a snapshot.
pub open spec fn spec_initial(s: State) -> InitialView {
    let units = spec_units(s);
    InitialView {
        units,
        aircraft: Seq::new(
            units.len(),
            |i: int| spec_fmc_count(
                table_rows(s, "v_aircraft"@),
                table_rows(s, "v_aircraft"@).len() as int,
                units[i],
            ),
        ),
        crew: Seq::new(
            units.len(),
            |i: int|
                CrewCounts {
                    pilot: spec_mos_count(
                        table_rows(s, "v_staffing"@),
                        table_rows(s, "v_staffing"@).len() as int,
                        units[i],
                        "7318"@,
                    ),
                    so: spec_mos_count(
                        table_rows(s, "v_staffing"@),
                        table_rows(s, "v_staffing"@).len() as int,
                        units[i],
                        "7314"@,
                    ),
                },
        ),
        payload: Seq::new(
            units.len(),
            |i: int| spec_payloads(
                table_rows(s, "v_payload"@),
                table_rows(s, "v_payload"@).len() as int,
                units[i],
            ),
        ),
        overrides_applied: false,
    }
}

/// The value of the first field of a row with the given name.
fn row_field<'a>(r: &'a StateRow, key: &String) -> (res: Option<&'a String>)
    ensures
        match res {
            Option::Some(v) => row_val(*r, key@) == Option::Some(v@),
            Option::None => row_val(*r, key@) is None,
        },
{
    let n = r.fields.len();
    let mut i: usize = 0;
    while i < n
        invariant
            i <= n,
            n == r.fields@.len(),
            row_val_from(r.fields@, key@, 0) == row_val_from(r.fields@, key@, i as int),
        decreases n - i,
    {
        if r.fields[i].0 == *key {
            return Option::Some(&r.fields[i].1);
        }
        i = i + 1;
    }
    Option::None
}

/// The first table of the snapshot with the given name.
fn find_table<'a>(s: &'a State, name: &String) -> (res: Option<&'a StateTable>)
    ensures
        match res {
            Option::Some(t) => table_rows(*s, name@) == t.rows@,
            Option::None => table_rows(*s, name@) == Seq::<StateRow>::empty(),
        },
{
    let n = s.tables.len();
    let mut i: usize = 0;
    while i < n
        invariant
            i <= n,
            n == s.tables@.len(),
            table_rows_from(s.tables@, name@, 0) == table_rows_from(s.tables@, name@, i as int),
        decreases n - i,
    {
        if s.tables[i].0 == *name {
            return Option::Some(&s.tables[i].1);
        }
        i = i + 1;
    }
    Option::None
}

/// The first position of a name in the unit list.
pub fn unit_index(units: &Vec<String>, name: &String) -> (res: Option<usize>)
    ensures
        match res {
            Option::Some(i) => i < units@.len() && units.deep_view()[i as int] == name@
                && units.deep_view().contains(name@) && (forall|k: int|
                0 <= k < i ==> units.deep_view()[k] != name@),
            Option::None => !units.deep_view().contains(name@),
        },
{
    let n = units.len();
    let mut i: usize = 0;
    while i < n
        invariant
            i <= n,
            n == units@.len(),
            forall|k: int| 0 <= k < i ==> units.deep_view()[k] != name@,
        decreases n - i,
    {
        if units[i] == *name {
            proof {
                assert(units.deep_view()[i as int] == name@);
            }
            return Option::Some(i);
        }
        i = i + 1;
    }
    proof {
        if units.deep_view().contains(name@) {
            let j = choose|j: int|
                0 <= j < units.deep_view().len() && units.deep_view()[j] == name@;
        }
    }
    Option::None
}

/// FMC aircraft of one unit, over all rows of the aircraft table.
fn count_fmc(rows: &Vec<StateRow>, unit: &String, key_status: &String, key_unit: &String, fmc: &String) -> (c: u32)
    requires
        key_status@ == "Status"@,
        key_unit@ == "Unit"@,
        fmc@ == "FMC"@,
    ensures
        c == spec_fmc_count(rows@, rows@.len() as int, unit@),
{
    let n = rows.len();
    let mut c: u32 = 0;
    let mut i: usize = 0;
    while i < n
        invariant
            i <= n,
            n == rows@.len(),
            key_status@ == "Status"@,
            key_unit@ == "Unit"@,
            fmc@ == "FMC"@,
            c == spec_fmc_count(rows@, i as int, unit@),
        decreases n - i,
    {
        let r = &rows[i];
        let st = row_field(r, key_status);
        let un = row_field(r, key_unit);
        if let (Option::Some(st), Option::Some(un)) = (st, un) {
            if *st == *fmc && *un == *unit {
                c = sat_add_u32(c, 1);
            }
        }
        i = i + 1;
    }
    c
}

/// Staff of one unit with the given MOS, over all staffing rows.
fn count_mos(rows: &Vec<StateRow>, unit: &String, mos: &String, key_unit_name: &String, key_mos: &String) -> (c: u32)
    requires
        key_unit_name@ == "Unit Name"@,
        key_mos@ == "MOS Number"@,
    ensures
        c == spec_mos_count(rows@, rows@.len() as int, unit@, mos@),
{
    let n = rows.len();
    let mut c: u32 = 0;
    let mut i: usize = 0;
    while i < n
        invariant
            i <= n,
            n == rows@.len(),
            key_unit_name@ == "Unit Name"@,
            key_mos@ == "MOS Number"@,
            c == spec_mos_count(rows@, i as int, unit@, mos@),
        decreases n - i,
    {
        let r = &rows[i];
        let un = row_field(r, key_unit_name);
        let mo = row_field(r, key_mos);
        if let (Option::Some(un), Option::Some(mo)) = (un, mo) {
            if *un == *unit && *mo == *mos {
                c = sat_add_u32(c, 1);
            }
        }
        i = i + 1;
    }
    c
}

/// Bumping a type found first at position `j` updates that entry.
proof fn lemma_bump_found(acc: Seq<(Seq<char>, u32)>, t: Seq<char>, j: int)
    requires
        0 <= j < acc.len(),
        acc[j].0 == t,
        forall|k: int| 0 <= k < j ==> acc[k].0 != t,
    ensures
        bump_type(acc, t) =~= acc.update(
            j,
            (acc[j].0, sat_add(acc[j].1 as int, 1, u32::MAX as int) as u32),
        ),
    decreases acc.len(),
{
    if j == 0 {
        assert(bump_type(acc, t) =~= acc.update(
            0,
            (acc[0].0, sat_add(acc[0].1 as int, 1, u32::MAX as int) as u32),
        ));
    } else {
        let rest = acc.drop_first();
        assert forall|k: int| 0 <= k < j - 1 implies rest[k].0 != t by {
            assert(rest[k] == acc[k + 1]);
        }
        assert(rest[j - 1] == acc[j]);
        lemma_bump_found(rest, t, j - 1);
    }
}

/// Bumping an absent type appends it with count one.
proof fn lemma_bump_absent(acc: Seq<(Seq<char>, u32)>, t: Seq<char>)
    requires
        forall|k: int| 0 <= k < acc.len() ==> acc[k].0 != t,
    ensures
        bump_type(acc, t) =~= acc.push((t, 1u32)),
    decreases acc.len(),
{
    if acc.len() > 0 {
        let rest = acc.drop_first();
        assert forall|k: int| 0 <= k < rest.len() implies rest[k].0 != t by {
            assert(rest[k] == acc[k + 1]);
        }
        lemma_bump_absent(rest, t);
        assert(acc[0].0 != t);
    }
}

/// The first position of a payload type in a count vector.
fn type_index(v: &Vec<(String, u32)>, t: &String) -> (res: Option<usize>)
    ensures
        match res {
            Option::Some(i) => i < v@.len() && payload_view(v@)[i as int].0 == t@ && (forall|k: int|
                0 <= k < i ==> payload_view(v@)[k].0 != t@),
            Option::None => forall|k: int| 0 <= k < v@.len() ==> payload_view(v@)[k].0 != t@,
        },
{
    let n = v.len();
    let mut i: usize = 0;
    while i < n
        invariant
            i <= n,
            n == v@.len(),
            forall|k: int| 0 <= k < i ==> payload_view(v@)[k].0 != t@,
        decreases n - i,
    {
        if v[i].0 == *t {
            return Option::Some(i);
        }
        i = i + 1;
    }
    Option::None
}

/// The payload counts of one unit, over all payload rows.
fn payloads_for_unit(rows: &Vec<StateRow>, unit: &String, key_type: &String, key_unit: &String, unknown: &String) -> (v: Vec<(String, u32)>)
    requires
        key_type@ == "Type"@,
        key_unit@ == "Unit"@,
        unknown@ == "UNKNOWN"@,
    ensures
        payload_view(v@) == spec_payloads(rows@, rows@.len() as int, unit@),
{
    let n = rows.len();
    let mut v: Vec<(String, u32)> = Vec::new();
    let mut i: usize = 0;
    proof {
        assert(payload_view(v@) =~= spec_payloads(rows@, 0, unit@));
    }
    while i < n
        invariant
            i <= n,
            n == rows@.len(),
            key_type@ == "Type"@,
            key_unit@ == "Unit"@,
            unknown@ == "UNKNOWN"@,
            payload_view(v@) == spec_payloads(rows@, i as int, unit@),
        decreases n - i,
    {
        let r = &rows[i];
        if let Option::Some(t) = row_field(r, key_type) {
            let matches_unit: bool = match row_field(r, key_unit) {
                Option::Some(u) => *u == *unit,
                Option::None => *unknown == *unit,
            };
            if matches_unit {
                let ghost before = payload_view(v@);
                match type_index(&v, t) {
                    Option::Some(j) => {
                        proof {
                            lemma_bump_found(before, t@, j as int);
                        }
                        let name = v[j].0.clone();
                        let cnt = v[j].1;
                        v.set(j, (name, sat_add_u32(cnt, 1)));
                        proof {
                            assert(payload_view(v@) =~= bump_type(before, t@));
                        }
                    },
                    Option::None => {
                        proof {
                            lemma_bump_absent(before, t@);
                        }
                        v.push((t.clone(), 1));
                        proof {
                            assert(payload_view(v@) =~= bump_type(before, t@));
                        }
                    },
                }
            }
        }
        i = i + 1;
    }
    v
}

/// The derived starting inventory of a snapshot: units in
/// first-appearance order, FMC aircraft, crew by MOS, and payload
/// instances counted by type.
pub fn derive_initial_from_state(state: &State) -> (r: InitialResources)
    ensures
        r@ == spec_initial(*state),
        r@.wf(),
{
    let key_unit = String::from_str("Unit");
    let key_status = String::from_str("Status");
    let key_type = String::from_str("Type");
    let key_unit_name = String::from_str("Unit Name");
    let key_mos = String::from_str("MOS Number");
    let fmc = String::from_str("FMC");
    let unknown = String::from_str("UNKNOWN");
    let pilot_mos = String::from_str("7318");
    let so_mos = String::from_str("7314");

    let name_unit = String::from_str("v_unit");
    let name_aircraft = String::from_str("v_aircraft");
    let name_payload = String::from_str("v_payload");
    let name_staffing = String::from_str("v_staffing");

    let empty_rows: Vec<StateRow> = Vec::new();
    let unit_rows: &Vec<StateRow> = match find_table(state, &name_unit) {
        Option::Some(t) => &t.rows,
        Option::None => &empty_rows,
    };
    let aircraft_rows: &Vec<StateRow> = match find_table(state, &name_aircraft) {
        Option::Some(t) => &t.rows,
        Option::None => &empty_rows,
    };
    let payload_rows: &Vec<StateRow> = match find_table(state, &name_payload) {
        Option::Some(t) => &t.rows,
        Option::None => &empty_rows,
    };
    let staffing_rows: &Vec<StateRow> = match find_table(state, &name_staffing) {
        Option::Some(t) => &t.rows,
        Option::None => &empty_rows,
    };
    proof {
        assert(empty_rows@ =~= Seq::<StateRow>::empty());
        assert(unit_rows@ == table_rows(*state, "v_unit"@));
        assert(aircraft_rows@ == table_rows(*state, "v_aircraft"@));
        assert(payload_rows@ == table_rows(*state, "v_payload"@));
        assert(staffing_rows@ == table_rows(*state, "v_staffing"@));
    }

    let mut units: Vec<String> = Vec::new();
    proof {
        assert(units.deep_view() =~= Seq::<Seq<char>>::empty());
    }

    // declared units
    let n0 = unit_rows.len();
    let mut i: usize = 0;
    while i < n0
        invariant
            i <= n0,
            n0 == unit_rows@.len(),
            key_unit@ == "Unit"@,
            units.deep_view() == units_from_unit_rows(
                Seq::<Seq<char>>::empty(),
                unit_rows@,
                i as int,
            ),
        decreases n0 - i,
    {
        if let Option::Some(u) = row_field(&unit_rows[i], &key_unit) {
            if unit_index(&units, u).is_none() {
                let ghost before = units.deep_view();
                units.push(u.clone());
                proof {
                    assert(units.deep_view() =~= before.push(u@));
                }
            }
        }
        i = i + 1;
    }

    // units seen on FMC aircraft rows
    let ghost u0 = units.deep_view();
    let n1 = aircraft_rows.len();
    let mut i: usize = 0;
    while i < n1
        invariant
            i <= n1,
            n1 == aircraft_rows@.len(),
            key_unit@ == "Unit"@,
            key_status@ == "Status"@,
            fmc@ == "FMC"@,
            units.deep_view() == units_from_aircraft_rows(u0, aircraft_rows@, i as int),
        decreases n1 - i,
    {
        let r = &aircraft_rows[i];
        if let Option::Some(st) = row_field(r, &key_status) {
            if *st == fmc {
                if let Option::Some(u) = row_field(r, &key_unit) {
                    if unit_index(&units, u).is_none() {
                        let ghost before = units.deep_view();
                        units.push(u.clone());
                        proof {
                            assert(units.deep_view() =~= before.push(u@));
                        }
                    }
                }
            }
        }
        i = i + 1;
    }

    // units seen on payload rows
    let ghost u1 = units.deep_view();
    let n2 = payload_rows.len();
    let mut i: usize = 0;
    while i < n2
        invariant
            i <= n2,
            n2 == payload_rows@.len(),
            key_unit@ == "Unit"@,
            key_type@ == "Type"@,
            unknown@ == "UNKNOWN"@,
            units.deep_view() == units_from_payload_rows(u1, payload_rows@, i as int),
        decreases n2 - i,
    {
        let r = &payload_rows[i];
        if row_field(r, &key_type).is_some() {
            let u: &String = match row_field(r, &key_unit) {
                Option::Some(u) => u,
                Option::None => &unknown,
            };
            if unit_index(&units, u).is_none() {
                let ghost before = units.deep_view();
                units.push(u.clone());
                proof {
                    assert(units.deep_view() =~= before.push(u@));
                }
            }
        }
        i = i + 1;
    }

    // units seen on staffing rows
    let ghost u2 = units.deep_view();
    let n3 = staffing_rows.len();
    let mut i: usize = 0;
    while i < n3
        invariant
            i <= n3,
            n3 == staffing_rows@.len(),
            key_unit_name@ == "Unit Name"@,
            key_mos@ == "MOS Number"@,
            units.deep_view() == units_from_staffing_rows(u2, staffing_rows@, i as int),
        decreases n3 - i,
    {
        let r = &staffing_rows[i];
        if row_field(r, &key_mos).is_some() {
            if let Option::Some(u) = row_field(r, &key_unit_name) {
                if unit_index(&units, u).is_none() {
                    let ghost before = units.deep_view();
                    units.push(u.clone());
                    proof {
                        assert(units.deep_view() =~= before.push(u@));
                    }
                }
            }
        }
        i = i + 1;
    }
    proof {
        assert(units.deep_view() == spec_units(*state));
    }

    // per-unit counts, parallel to the unit list
    let nu = units.len();
    let mut aircraft_by_unit: Vec<u32> = Vec::new();
    let mut crew_by_unit: Vec<CrewCounts> = Vec::new();
    let mut payload_by_unit: Vec<Vec<(String, u32)>> = Vec::new();
    let mut i: usize = 0;
    while i < nu
        invariant
            i <= nu,
            nu == units@.len(),
            key_unit@ == "Unit"@,
            key_status@ == "Status"@,
            key_type@ == "Type"@,
            key_unit_name@ == "Unit Name"@,
            key_mos@ == "MOS Number"@,
            fmc@ == "FMC"@,
            unknown@ == "UNKNOWN"@,
            pilot_mos@ == "7318"@,
            so_mos@ == "7314"@,
            aircraft_rows@ == table_rows(*state, "v_aircraft"@),
            payload_rows@ == table_rows(*state, "v_payload"@),
            staffing_rows@ == table_rows(*state, "v_staffing"@),
            aircraft_by_unit@.len() == i,
            crew_by_unit@.len() == i,
            payload_by_unit@.len() == i,
            forall|k: int|
                0 <= k < i ==> aircraft_by_unit@[k] == spec_fmc_count(
                    table_rows(*state, "v_aircraft"@),
                    table_rows(*state, "v_aircraft"@).len() as int,
                    units.deep_view()[k],
                ),
            forall|k: int|
                0 <= k < i ==> crew_by_unit@[k] == (CrewCounts {
                    pilot: spec_mos_count(
                        table_rows(*state, "v_staffing"@),
                        table_rows(*state, "v_staffing"@).len() as int,
                        units.deep_view()[k],
                        "7318"@,
                    ),
                    so: spec_mos_count(
                        table_rows(*state, "v_staffing"@),
                        table_rows(*state, "v_staffing"@).len() as int,
                        units.deep_view()[k],
                        "7314"@,
                    ),
                }),
            forall|k: int|
                0 <= k < i ==> payload_view(#[trigger] payload_by_unit@[k]@) == spec_payloads(
                    table_rows(*state, "v_payload"@),
                    table_rows(*state, "v_payload"@).len() as int,
                    units.deep_view()[k],
                ),
        decreases nu - i,
    {
        let u = &units[i];
        proof {
            assert(units.deep_view()[i as int] == units@[i as int]@);
        }
        let ac = count_fmc(aircraft_rows, u, &key_status, &key_unit, &fmc);
        let pilot = count_mos(staffing_rows, u, &pilot_mos, &key_unit_name, &key_mos);
        let so = count_mos(staffing_rows, u, &so_mos, &key_unit_name, &key_mos);
        let pl = payloads_for_unit(payload_rows, u, &key_type, &key_unit, &unknown);
        aircraft_by_unit.push(ac);
        crew_by_unit.push(CrewCounts { pilot, so });
        payload_by_unit.push(pl);
        i = i + 1;
    }

    let r = InitialResources {
        units,
        aircraft_by_unit,
        crew_by_unit,
        payload_by_unit,
        overrides_applied: false,
    };
    proof {
        assert(r@.units == spec_initial(*state).units);
        assert(r@.aircraft =~= spec_initial(*state).aircraft);
        assert(r@.crew =~= spec_initial(*state).crew);
        assert(r@.payload =~= spec_initial(*state).payload);
        assert(r@ == spec_initial(*state));
    }
    r
}

/// Whether a payload type is present in a count list.
pub open spec fn has_type(acc: Seq<(Seq<char>, u32)>, t: Seq<char>) -> bool {
    exists|k: int| 0 <= k < acc.len() && (#[trigger] acc[k]).0 == t
}

/// A payload type set to an absolute count: the first entry of that
/// type is replaced, or the type is appended.
pub open spec fn set_type(acc: Seq<(Seq<char>, u32)>, t: Seq<char>, c: u32) -> Seq<(Seq<char>, u32)>
    decreases acc.len(),
{
    if acc.len() == 0 {
        seq![(t, c)]
    } else if acc[0].0 == t {
        seq![(acc[0].0, c)] + acc.drop_first()
    } else {
        seq![acc[0]] + set_type(acc.drop_first(), t, c)
    }
}

/// The first `n` entries of a by-type override applied in order.
pub open spec fn set_types(acc: Seq<(Seq<char>, u32)>, list: Seq<(String, u32)>, n: int) -> Seq<
    (Seq<char>, u32),
>
    decreases n,
{
    if n <= 0 {
        acc
    } else {
        set_type(set_types(acc, list, n - 1), list[n - 1].0@, list[n - 1].1)
    }
}

/// Every known type set to one count, and the first `n` required types
/// appended where missing.
pub open spec fn fill_types(acc: Seq<(Seq<char>, u32)>, req: Seq<Seq<char>>, n: int, c: u32) -> Seq<
    (Seq<char>, u32),
>
    decreases n,
{
    if n <= 0 {
        acc.map_values(|p: (Seq<char>, u32)| (p.0, c))
    } else {
        let a = fill_types(acc, req, n - 1, c);
        if has_type(a, req[n - 1]) {
            a
        } else {
            a.push((req[n - 1], c))
        }
    }
}

/// The payload types required by the first `n` entries of one mission
/// type's requirement list.
pub open spec fn req_types_of_list(acc: Seq<Seq<char>>, list: Seq<String>, n: int) -> Seq<Seq<char>>
    decreases n,
{
    if n <= 0 {
        acc
    } else {
        push_unique(req_types_of_list(acc, list, n - 1), list[n - 1]@)
    }
}

/// All payload types required by the first `n` mission types.
pub open spec fn spec_required_types(mts: Seq<MissionType>, n: int) -> Seq<Seq<char>>
    decreases n,
{
    if n <= 0 {
        Seq::<Seq<char>>::empty()
    } else {
        let a = spec_required_types(mts, n - 1);
        match mts[n - 1].required_payload_types {
            Option::Some(list) => req_types_of_list(a, list@, list@.len() as int),
            Option::None => a,
        }
    }
}

/// A unit added to the inventory with empty resources, unless present.
pub open spec fn add_unit(v: InitialView, name: Seq<char>) -> InitialView {
    if v.units.contains(name) {
        v
    } else {
        InitialView {
            units: v.units.push(name),
            aircraft: v.aircraft.push(0),
            crew: v.crew.push(CrewCounts { pilot: 0, so: 0 }),
            payload: v.payload.push(Seq::<(Seq<char>, u32)>::empty()),
            ..v
        }
    }
}

/// The first position of a name, or the length when absent.
pub open spec fn first_index(s: Seq<Seq<char>>, name: Seq<char>) -> int
    decreases s.len(),
{
    if s.len() == 0 {
        0
    } else if s[0] == name {
        0
    } else {
        1 + first_index(s.drop_first(), name)
    }
}

/// One unit's overrides applied to the inventory.
pub open spec fn spec_apply_unit(
    v: InitialView,
    name: Seq<char>,
    o: UnitOverrides,
    req: Seq<Seq<char>>,
) -> InitialView {
    let v1 = add_unit(v, name);
    let i = first_index(v1.units, name);
    let v2 = match o.aircraft {
        Option::Some(a) => InitialView { aircraft: v1.aircraft.update(i, a), ..v1 },
        Option::None => v1,
    };
    let v3 = match o.pilot {
        Option::Some(p) => InitialView {
            crew: v2.crew.update(i, CrewCounts { pilot: p, so: v2.crew[i].so }),
            ..v2
        },
        Option::None => v2,
    };
    let v4 = match o.so {
        Option::Some(so) => InitialView {
            crew: v3.crew.update(i, CrewCounts { pilot: v3.crew[i].pilot, so }),
            ..v3
        },
        Option::None => v3,
    };
    let v5 = match o.payload_by_type {
        Option::Some(list) => InitialView {
            payload: v4.payload.update(i, set_types(v4.payload[i], list@, list@.len() as int)),
            ..v4
        },
        Option::None => v4,
    };
    match o.payload_per_type {
        Option::Some(c) => InitialView {
            payload: v5.payload.update(i, fill_types(v5.payload[i], req, req.len() as int, c)),
            ..v5
        },
        Option::None => v5,
    }
}

/// The first `n` override entries applied in order.
pub open spec fn spec_apply_overrides(
    v: InitialView,
    os: Seq<(String, UnitOverrides)>,
    n: int,
    req: Seq<Seq<char>>,
) -> InitialView
    decreases n,
{
    if n <= 0 {
        v
    } else {
        spec_apply_unit(
            spec_apply_overrides(v, os, n - 1, req),
            os[n - 1].0@,
            os[n - 1].1,
            req,
        )
    }
}

/// The inventory after overrides; absent overrides change nothing.
pub open spec fn spec_with_overrides(v: InitialView, o: Overrides, mts: Seq<MissionType>) -> InitialView {
    match o.units {
        Option::Some(os) => InitialView {
            overrides_applied: true,
            ..spec_apply_overrides(v, os@, os@.len() as int, spec_required_types(mts, mts.len() as int))
        },
        Option::None => v,
    }
}

/// Replacing the first entry of a type found at position `j`.
proof fn lemma_set_type_found(acc: Seq<(Seq<char>, u32)>, t: Seq<char>, c: u32, j: int)
    requires
        0 <= j < acc.len(),
        acc[j].0 == t,
        forall|k: int| 0 <= k < j ==> acc[k].0 != t,
    ensures
        set_type(acc, t, c) =~= acc.update(j, (acc[j].0, c)),
    decreases acc.len(),
{
    if j == 0 {
        assert(set_type(acc, t, c) =~= acc.update(0, (acc[0].0, c)));
    } else {
        let rest = acc.drop_first();
        assert forall|k: int| 0 <= k < j - 1 implies rest[k].0 != t by {
            assert(rest[k] == acc[k + 1]);
        }
        assert(rest[j - 1] == acc[j]);
        lemma_set_type_found(rest, t, c, j - 1);
    }
}

/// Setting an absent type appends it.
proof fn lemma_set_type_absent(acc: Seq<(Seq<char>, u32)>, t: Seq<char>, c: u32)
    requires
        forall|k: int| 0 <= k < acc.len() ==> acc[k].0 != t,
    ensures
        set_type(acc, t, c) =~= acc.push((t, c)),
    decreases acc.len(),
{
    if acc.len() > 0 {
        let rest = acc.drop_first();
        assert forall|k: int| 0 <= k < rest.len() implies rest[k].0 != t by {
            assert(rest[k] == acc[k + 1]);
        }
        lemma_set_type_absent(rest, t, c);
        assert(acc[0].0 != t);
    }
}

/// One type set to an absolute count in a count vector.
fn set_type_exec(pv: &Vec<(String, u32)>, t: &String, c: u32) -> (nv: Vec<(String, u32)>)
    ensures
        payload_view(nv@) == set_type(payload_view(pv@), t@, c),
{
    let mut nv: Vec<(String, u32)> = Vec::new();
    match type_index(pv, t) {
        Option::Some(j) => {
            proof {
                lemma_set_type_found(payload_view(pv@), t@, c, j as int);
            }
            let n = pv.len();
            let mut i: usize = 0;
            while i < n
                invariant
                    i <= n,
                    n == pv@.len(),
                    j < n,
                    nv@.len() == i,
                    forall|k: int|
                        0 <= k < i && k != j ==> (#[trigger] nv@[k]).0@ == pv@[k].0@ && nv@[k].1
                            == pv@[k].1,
                    j < i ==> nv@[j as int].0@ == pv@[j as int].0@ && nv@[j as int].1 == c,
                decreases n - i,
            {
                if i == j {
                    nv.push((pv[i].0.clone(), c));
                } else {
                    nv.push((pv[i].0.clone(), pv[i].1));
                }
                i = i + 1;
            }
            proof {
                assert(payload_view(nv@) =~= payload_view(pv@).update(
                    j as int,
                    (payload_view(pv@)[j as int].0, c),
                ));
            }
        },
        Option::None => {
            proof {
                lemma_set_type_absent(payload_view(pv@), t@, c);
            }
            let n = pv.len();
            let mut i: usize = 0;
            while i < n
                invariant
                    i <= n,
                    n == pv@.len(),
                    nv@.len() == i,
                    forall|k: int|
                        0 <= k < i ==> (#[trigger] nv@[k]).0@ == pv@[k].0@ && nv@[k].1 == pv@[k].1,
                decreases n - i,
            {
                nv.push((pv[i].0.clone(), pv[i].1));
                i = i + 1;
            }
            nv.push((t.clone(), c));
            proof {
                assert(payload_view(nv@) =~= payload_view(pv@).push((t@, c)));
            }
        },
    }
    nv
}

/// Every known type set to `c`, and required types appended.
fn fill_types_exec(pv: &Vec<(String, u32)>, req: &Vec<String>, c: u32) -> (nv: Vec<(String, u32)>)
    ensures
        payload_view(nv@) == fill_types(payload_view(pv@), req.deep_view(), req@.len() as int, c),
{
    let mut nv: Vec<(String, u32)> = Vec::new();
    let n = pv.len();
    let mut i: usize = 0;
    while i < n
        invariant
            i <= n,
            n == pv@.len(),
            nv@.len() == i,
            forall|k: int| 0 <= k < i ==> (#[trigger] nv@[k]).0@ == pv@[k].0@ && nv@[k].1 == c,
        decreases n - i,
    {
        nv.push((pv[i].0.clone(), c));
        i = i + 1;
    }
    proof {
        assert(payload_view(nv@) =~= payload_view(pv@).map_values(|p: (Seq<char>, u32)| (p.0, c)));
        assert(payload_view(nv@) =~= fill_types(payload_view(pv@), req.deep_view(), 0, c));
    }
    let nr = req.len();
    let mut k: usize = 0;
    while k < nr
        invariant
            k <= nr,
            nr == req@.len(),
            payload_view(nv@) == fill_types(payload_view(pv@), req.deep_view(), k as int, c),
        decreases nr - k,
    {
        let t = &req[k];
        proof {
            assert(req.deep_view()[k as int] == req@[k as int]@);
        }
        match type_index(&nv, t) {
            Option::Some(j) => {
                proof {
                    assert(has_type(payload_view(nv@), t@));
                }
            },
            Option::None => {
                proof {
                    if has_type(payload_view(nv@), t@) {
                        let j = choose|j: int|
                            0 <= j < payload_view(nv@).len() && payload_view(nv@)[j].0 == t@;
                    }
                }
                nv.push((t.clone(), c));
                proof {
                    assert(payload_view(nv@) =~= fill_types(
                        payload_view(pv@),
                        req.deep_view(),
                        k as int,
                        c,
                    ).push((t@, c)));
                }
            },
        }
        k = k + 1;
    }
    nv
}

/// The payload types demanded by any mission type, each once, in
/// first-appearance order.
fn required_types(mission_types: &Vec<MissionType>) -> (req: Vec<String>)
    ensures
        req.deep_view() == spec_required_types(mission_types@, mission_types@.len() as int),
{
    let mut req: Vec<String> = Vec::new();
    proof {
        assert(req.deep_view() =~= Seq::<Seq<char>>::empty());
    }
    let n = mission_types.len();
    let mut i: usize = 0;
    while i < n
        invariant
            i <= n,
            n == mission_types@.len(),
            req.deep_view() == spec_required_types(mission_types@, i as int),
        decreases n - i,
    {
        if let Option::Some(list) = &mission_types[i].required_payload_types {
            let m = list.len();
            let ghost base = req.deep_view();
            let mut k: usize = 0;
            while k < m
                invariant
                    k <= m,
                    m == list@.len(),
                    req.deep_view() == req_types_of_list(base, list@, k as int),
                decreases m - k,
            {
                let t = &list[k];
                if unit_index(&req, t).is_none() {
                    let ghost before = req.deep_view();
                    req.push(t.clone());
                    proof {
                        assert(req.deep_view() =~= before.push(t@));
                    }
                }
                k = k + 1;
            }
        }
        i = i + 1;
    }
    req
}

/// Overrides applied to an inventory: absolute counts per unit, with
/// unknown units created empty first.
pub fn apply_overrides(
    initial: &mut InitialResources,
    overrides: &Overrides,
    mission_types: &Vec<MissionType>,
)
    requires
        old(initial)@.wf(),
    ensures
        final(initial)@ == spec_with_overrides(old(initial)@, *overrides, mission_types@),
        final(initial)@.wf(),
{
    if let Option::Some(os) = &overrides.units {
        let req = required_types(mission_types);
        let n = os.len();
        let mut i: usize = 0;
        while i < n
            invariant
                i <= n,
                n == os@.len(),
                req.deep_view() == spec_required_types(mission_types@, mission_types@.len() as int),
                initial@.wf(),
                initial@ == spec_apply_overrides(old(initial)@, os@, i as int, req.deep_view()),
            decreases n - i,
        {
            let name = &os[i].0;
            let o = &os[i].1;
            let ghost v0 = initial@;
            // ensure the unit exists
            let ui: usize = match unit_index(&initial.units, name) {
                Option::Some(j) => {
                    proof {
                        lemma_first_index_found(v0.units, name@, j as int);
                    }
                    j
                },
                Option::None => {
                    let j = initial.units.len();
                    let ghost before = initial.units.deep_view();
                    initial.units.push(name.clone());
                    initial.aircraft_by_unit.push(0);
                    initial.crew_by_unit.push(CrewCounts { pilot: 0, so: 0 });
                    initial.payload_by_unit.push(Vec::new());
                    proof {
                        assert(initial.units.deep_view() =~= before.push(name@));
                        assert(initial@.payload[j as int] =~= Seq::<(Seq<char>, u32)>::empty());
                        assert(initial@ =~= add_unit(v0, name@)) by {
                            assert(initial@.units =~= add_unit(v0, name@).units);
                            assert(initial@.aircraft =~= add_unit(v0, name@).aircraft);
                            assert(initial@.crew =~= add_unit(v0, name@).crew);
                            assert(initial@.payload =~= add_unit(v0, name@).payload);
                        }
                        lemma_first_index_absent(before, name@);
                    }
                    j
                },
            };
            let ghost v1 = add_unit(v0, name@);
            proof {
                assert(initial@ == v1);
                assert(ui as int == first_index(v1.units, name@));
                assert(ui < v1.units.len());
                assert(v1.wf());
            }
            if let Option::Some(a) = o.aircraft {
                initial.aircraft_by_unit.set(ui, a);
            }
            let ghost v2 = spec_apply_unit_aircraft(v1, ui as int, o.aircraft);
            proof {
                assert(initial@ =~= v2);
                assert(v2.wf() && v2.units == v1.units);
            }
            if let Option::Some(p) = o.pilot {
                let so = initial.crew_by_unit[ui].so;
                initial.crew_by_unit.set(ui, CrewCounts { pilot: p, so });
            }
            let ghost v3 = spec_apply_unit_pilot(v2, ui as int, o.pilot);
            proof {
                assert(initial@ =~= v3);
                assert(v3.wf() && v3.units == v1.units);
            }
            if let Option::Some(so) = o.so {
                let pilot = initial.crew_by_unit[ui].pilot;
                initial.crew_by_unit.set(ui, CrewCounts { pilot, so });
            }
            let ghost v4 = spec_apply_unit_so(v3, ui as int, o.so);
            proof {
                assert(initial@ =~= v4);
                assert(v4.wf() && v4.units == v1.units);
                assert(ui < v4.payload.len());
            }
            if let Option::Some(list) = &o.payload_by_type {
                let m = list.len();
                proof {
                    assert(v4.payload.update(ui as int, v4.payload[ui as int]) =~= v4.payload);
                    assert(initial@ =~~= (InitialView {
                        payload: v4.payload.update(
                            ui as int,
                            set_types(v4.payload[ui as int], list@, 0),
                        ),
                        ..v4
                    }));
                }
                let mut k: usize = 0;
                while k < m
                    invariant
                        k <= m,
                        m == list@.len(),
                        ui < initial.payload_by_unit@.len(),
                        ui < v4.payload.len(),
                        initial@ == (InitialView {
                            payload: v4.payload.update(
                                ui as int,
                                set_types(v4.payload[ui as int], list@, k as int),
                            ),
                            ..v4
                        }),
                    decreases m - k,
                {
                    proof {
                        assert(payload_view(initial.payload_by_unit@[ui as int]@)
                            =~= initial@.payload[ui as int]);
                    }
                    let ghost s_k = set_types(v4.payload[ui as int], list@, k as int);
                    proof {
                        assert(initial@.payload[ui as int] == s_k);
                    }
                    let nv = set_type_exec(&initial.payload_by_unit[ui], &list[k].0, list[k].1);
                    proof {
                        assert(payload_view(nv@) == set_type(s_k, list@[k as int].0@, list@[k as int].1));
                        assert(payload_view(nv@) == set_types(v4.payload[ui as int], list@, k as int + 1));
                    }
                    let ghost pre = initial@;
                    let ghost k0 = k as int;
                    let ghost vecs0 = initial.payload_by_unit@;
                    initial.payload_by_unit.set(ui, nv);
                    k = k + 1;
                    proof {
                        assert(initial.payload_by_unit@.len() == vecs0.len());
                        assert(pre.payload.len() == vecs0.len());
                        assert(pre.payload == v4.payload.update(
                            ui as int,
                            set_types(v4.payload[ui as int], list@, k0),
                        ));
                        assert(v4.payload.update(
                            ui as int,
                            set_types(v4.payload[ui as int], list@, k0),
                        ).len() == v4.payload.len());
                        assert forall|j: int|
                            0 <= j < initial.payload_by_unit@.len() && j != ui implies
                            initial@.payload[j] == v4.payload[j] by {
                            assert(initial@.payload[j] == payload_view(
                                initial.payload_by_unit@[j]@,
                            ));
                            assert(pre.payload[j] == payload_view(initial.payload_by_unit@[j]@));
                            assert(pre.payload[j] == v4.payload.update(
                                ui as int,
                                set_types(v4.payload[ui as int], list@, k0),
                            )[j]);
                        }
                        assert(initial@.payload.len() == v4.payload.len());
                        assert(initial@.payload[ui as int] == payload_view(nv@));
                        assert(initial@.payload =~= v4.payload.update(
                            ui as int,
                            set_types(v4.payload[ui as int], list@, k as int),
                        ));
                        assert(initial@ =~= (InitialView {
                            payload: v4.payload.update(
                                ui as int,
                                set_types(v4.payload[ui as int], list@, k as int),
                            ),
                            ..v4
                        }));
                    }
                }
            } else {
                proof {
                    assert(v4.payload.update(ui as int, v4.payload[ui as int]) =~= v4.payload);
                }
            }
            let ghost v5 = spec_apply_unit_by_type(v4, ui as int, o.payload_by_type);
            proof {
                assert(initial@ =~~= v5);
                assert(v5.wf() && v5.units == v1.units);
                assert(ui < v5.payload.len());
            }
            if let Option::Some(c) = o.payload_per_type {
                proof {
                    assert(payload_view(initial.payload_by_unit@[ui as int]@)
                        =~= initial@.payload[ui as int]);
                }
                let nv = fill_types_exec(&initial.payload_by_unit[ui], &req, c);
                let ghost pre = initial@;
                initial.payload_by_unit.set(ui, nv);
                proof {
                    assert forall|j: int|
                        0 <= j < initial.payload_by_unit@.len() && j != ui implies
                        initial@.payload[j] == pre.payload[j] by {
                        assert(initial@.payload[j] == payload_view(initial.payload_by_unit@[j]@));
                        assert(pre.payload[j] == payload_view(initial.payload_by_unit@[j]@));
                    }
                    assert(initial@.payload[ui as int] == payload_view(nv@));
                    assert(initial@.payload =~= v5.payload.update(
                        ui as int,
                        fill_types(v5.payload[ui as int], req.deep_view(), req@.len() as int, c),
                    ));
                }
            }
            proof {
                assert(initial@ =~~= spec_apply_unit(v0, name@, os@[i as int].1, req.deep_view()));
                assert(initial@ == spec_apply_unit(v0, os@[i as int].0@, os@[i as int].1, req.deep_view()));
            }
            i = i + 1;
        }
        initial.overrides_applied = true;
        proof {
            assert(initial@ =~~= spec_with_overrides(old(initial)@, *overrides, mission_types@));
        }
    }
}

/// The aircraft step of one unit's overrides, as its own function so
/// the proof can move one field at a time.
pub open spec fn spec_apply_unit_aircraft(v: InitialView, i: int, a: Option<u32>) -> InitialView {
    match a {
        Option::Some(a) => InitialView { aircraft: v.aircraft.update(i, a), ..v },
        Option::None => v,
    }
}

/// The pilot step of one unit's overrides.
pub open spec fn spec_apply_unit_pilot(v: InitialView, i: int, p: Option<u32>) -> InitialView {
    match p {
        Option::Some(p) => InitialView {
            crew: v.crew.update(i, CrewCounts { pilot: p, so: v.crew[i].so }),
            ..v
        },
        Option::None => v,
    }
}

/// The sensor-operator step of one unit's overrides.
pub open spec fn spec_apply_unit_so(v: InitialView, i: int, so: Option<u32>) -> InitialView {
    match so {
        Option::Some(so) => InitialView {
            crew: v.crew.update(i, CrewCounts { pilot: v.crew[i].pilot, so }),
            ..v
        },
        Option::None => v,
    }
}

/// The by-type payload step of one unit's overrides.
pub open spec fn spec_apply_unit_by_type(
    v: InitialView,
    i: int,
    list: Option<Vec<(String, u32)>>,
) -> InitialView {
    match list {
        Option::Some(list) => InitialView {
            payload: v.payload.update(i, set_types(v.payload[i], list@, list@.len() as int)),
            ..v
        },
        Option::None => v,
    }
}

/// Applying overrides never removes a unit.
pub proof fn lemma_overrides_keep_units(v: InitialView, o: Overrides, mts: Seq<MissionType>)
    ensures
        spec_with_overrides(v, o, mts).units.len() >= v.units.len(),
{
    match o.units {
        Option::Some(os) => {
            lemma_apply_overrides_units(v, os@, os@.len() as int, spec_required_types(mts, mts.len() as int));
        },
        Option::None => {},
    }
}

proof fn lemma_apply_overrides_units(
    v: InitialView,
    os: Seq<(String, UnitOverrides)>,
    n: int,
    req: Seq<Seq<char>>,
)
    ensures
        spec_apply_overrides(v, os, n, req).units.len() >= v.units.len(),
    decreases n,
{
    if n > 0 {
        lemma_apply_overrides_units(v, os, n - 1, req);
    }
}

/// A found position is the first index.
proof fn lemma_first_index_found(s: Seq<Seq<char>>, name: Seq<char>, j: int)
    requires
        0 <= j < s.len(),
        s[j] == name,
        forall|k: int| 0 <= k < j ==> s[k] != name,
    ensures
        first_index(s, name) == j,
        s.contains(name),
    decreases s.len(),
{
    if j > 0 {
        let rest = s.drop_first();
        assert forall|k: int| 0 <= k < j - 1 implies rest[k] != name by {
            assert(rest[k] == s[k + 1]);
        }
        assert(rest[j - 1] == s[j]);
        lemma_first_index_found(rest, name, j - 1);
    }
}

/// An absent name indexes just past the end once pushed.
proof fn lemma_first_index_absent(s: Seq<Seq<char>>, name: Seq<char>)
    requires
        !s.contains(name),
    ensures
        first_index(s.push(name), name) == s.len(),
    decreases s.len(),
{
    let p = s.push(name);
    if s.len() == 0 {
        assert(p[0] == name);
    } else {
        assert(s[0] == p[0]);
        assert(p[0] != name) by {
            if s[0] == name {
                assert(s.contains(name)) by {
                    assert(s[0] == name);
                }
            }
        }
        let srest = s.drop_first();
        assert(!srest.contains(name)) by {
            if srest.contains(name) {
                let k = choose|k: int| 0 <= k < srest.len() && srest[k] == name;
                assert(s[k + 1] == name);
            }
        }
        assert(p.drop_first() =~= srest.push(name));
        lemma_first_index_absent(srest, name);
    }
}

} // verus!
