//! STEP compatibility: some exporters omit the optional `ref_direction` of an
//! `AXIS2_PLACEMENT_3D`, written as a trailing `$`. This module fills only that
//! omitted field with a reference to a new `DIRECTION` entity, appended before
//! the `ENDSEC;` that closes the `DATA;` section. The direction itself is a
//! floating-point computation done by the caller from the scanned axis
//! coordinates; it arrives here as the text of its three coordinates.
use vstd::prelude::*;
use crate::text::{
    append_chars, chars_eq, chars_of, decimal, ends_with, ends_with_chars, find, find_chars,
    find_from, is_digit, is_white_space, lemma_decimal_digits, lemma_find_from_concat,
    lemma_find_from_same, lemma_find_from_shift, lemma_find_from_skip, lemma_find_from_some,
    lemma_find_from_first, lemma_find_in_bounds, lemma_find_occurs,
    lemma_line_end_bounds, lemma_line_end_breaks, lemma_line_end_prefix, lemma_line_end_shift,
    lemma_line_end_single, lemma_rfind_some, lemma_trim_end_take, lemma_trim_start_concat,
    lemma_trim_start_suffix, line_end, line_end_chars, occurs_at, parse_u64,
    parse_u64_chars, push_decimal, replace_first, rfind_before, rfind_char, rfind_char_chars,
    split_char, split_char_chars, starts_with, starts_with_chars, string_from_chars, sub_chars,
    trim, trim_chars, trim_end, trim_start,
};

verus! {

/// Why the normalization refused its input.
#[derive(Clone, Copy, Debug, PartialEq, Eq)]
pub enum StepError {
    MalformedDirection,
    MalformedDirectionCoordinates,
    MalformedPlacement,
    UnsupportedPlacementLayout,
    MissingAxis,
    InvalidAxisReference,
    AxisNotFound(u64),
    AxisInvalid(u64),
    DataSectionMissing,
    EndsecMissing,
}

/// A `DIRECTION` entity: its id and the text between the last `(` of its
/// body and the following `)`.
pub struct DirectionRecord {
    pub id: u64,
    pub coordinates: String,
}

/// What the first pass over a STEP text finds.
pub struct DirectionScan {
    /// The `DIRECTION` entities, in order, up to the first malformed one.
    pub records: Vec<DirectionRecord>,
    /// Whether some `DIRECTION` entity lacks a `)` after its last `(`.
    pub malformed: bool,
    /// The largest entity id, or 0.
    pub max_id: u64,
    /// The number of `AXIS2_PLACEMENT_3D` lines that end in `,$);`.
    pub placements: usize,
}

/// The reference direction chosen for an axis.
pub enum AxisReference {
    /// The three coordinates of a unit vector perpendicular to the axis, as
    /// they are to be written in the new `DIRECTION` entity.
    Perpendicular(String),
    /// The axis has no usable length.
    Degenerate,
}

/// A three-coordinate `DIRECTION` entity usable as an axis.
pub struct AxisDirection {
    pub id: u64,
    pub reference: AxisReference,
}

pub open spec fn direction_prefix() -> Seq<char> {
    "DIRECTION("@
}

pub open spec fn placement_prefix() -> Seq<char> {
    "AXIS2_PLACEMENT_3D("@
}

pub open spec fn omitted_suffix() -> Seq<char> {
    ",$);"@
}

pub open spec fn close_suffix() -> Seq<char> {
    ");"@
}

pub open spec fn reference_open() -> Seq<char> {
    ",#"@
}

pub open spec fn direction_open() -> Seq<char> {
    "=DIRECTION('',("@
}

pub open spec fn direction_close() -> Seq<char> {
    "));\n"@
}

pub open spec fn data_marker() -> Seq<char> {
    "DATA;"@
}

pub open spec fn endsec_marker() -> Seq<char> {
    "ENDSEC;"@
}

/// The text of each error.
pub open spec fn error_message(e: StepError) -> Seq<char> {
    match e {
        StepError::MalformedDirection => "malformed DIRECTION"@,
        StepError::MalformedDirectionCoordinates => "malformed DIRECTION coordinates"@,
        StepError::MalformedPlacement => "malformed AXIS2_PLACEMENT_3D"@,
        StepError::UnsupportedPlacementLayout => "unsupported AXIS2_PLACEMENT_3D layout"@,
        StepError::MissingAxis => "missing AXIS2_PLACEMENT_3D axis"@,
        StepError::InvalidAxisReference => "invalid AXIS2_PLACEMENT_3D axis reference"@,
        StepError::AxisNotFound(id) => "AXIS2_PLACEMENT_3D axis #"@ + decimal(id as nat)
            + " not found"@,
        StepError::AxisInvalid(id) => "AXIS2_PLACEMENT_3D axis #"@ + decimal(id as nat)
            + " is invalid"@,
        StepError::DataSectionMissing => "STEP DATA section missing"@,
        StepError::EndsecMissing => "STEP DATA ENDSEC missing"@,
    }
}

/// An entity line `#id=body`: the id, parsed after trimming, and the trimmed body.
pub open spec fn entity(line: Seq<char>) -> Option<(u64, Seq<char>)> {
    if line.len() > 0 && line[0] == '#' {
        let rest = line.drop_first();
        match find(rest, seq!['=']) {
            Some(k) => match parse_u64(trim(rest.take(k))) {
                Some(id) => Some((id, trim(rest.skip(k + 1)))),
                None => None,
            },
            None => None,
        }
    } else {
        None
    }
}

/// The line of `s` that starts at `p`, with its line break.
pub open spec fn line_at(s: Seq<char>, p: int) -> Seq<char> {
    s.subrange(p, line_end(s, p))
}

/// The text between the last `(` of a `DIRECTION` body and the next `)`.
pub open spec fn direction_coordinates(body: Seq<char>) -> Option<Seq<char>> {
    match rfind_char(body, '(') {
        Some(a) => match find(body.skip(a + 1), seq![')']) {
            Some(k) => Some(body.subrange(a + 1, a + 1 + k)),
            None => None,
        },
        None => None,
    }
}

/// The `DIRECTION` records of the lines from `p` on, and whether the scan
/// stopped at a malformed one.
pub open spec fn scan_from(s: Seq<char>, p: int) -> (Seq<(u64, Seq<char>)>, bool)
    decreases s.len() - p,
{
    if p < 0 || p >= s.len() {
        (Seq::empty(), false)
    } else {
        let e = line_end(s, p);
        proof {
            lemma_line_end_bounds(s, p);
        }
        match entity(trim(line_at(s, p))) {
            Some((id, body)) => if starts_with(body, direction_prefix()) {
                match direction_coordinates(body) {
                    Some(c) => {
                        let rest = scan_from(s, e);
                        (seq![(id, c)] + rest.0, rest.1)
                    },
                    None => (Seq::empty(), true),
                }
            } else {
                scan_from(s, e)
            },
            None => scan_from(s, e),
        }
    }
}

pub open spec fn direction_scan(s: Seq<char>) -> (Seq<(u64, Seq<char>)>, bool) {
    scan_from(s, 0)
}

/// The largest entity id on the lines from `p` on, or 0.
pub open spec fn max_id_from(s: Seq<char>, p: int) -> u64
    decreases s.len() - p,
{
    if p < 0 || p >= s.len() {
        0
    } else {
        let e = line_end(s, p);
        proof {
            lemma_line_end_bounds(s, p);
        }
        let rest = max_id_from(s, e);
        match entity(trim(line_at(s, p))) {
            Some((id, _)) => if id > rest {
                id
            } else {
                rest
            },
            None => rest,
        }
    }
}

pub open spec fn max_entity_id(s: Seq<char>) -> u64 {
    max_id_from(s, 0)
}

/// A line that is an `AXIS2_PLACEMENT_3D` entity whose last field is omitted.
pub open spec fn is_omitted_placement(line: Seq<char>) -> bool {
    let t = trim(line);
    match entity(t) {
        Some((_, body)) => starts_with(body, placement_prefix()) && ends_with(t, omitted_suffix()),
        None => false,
    }
}

pub open spec fn placements_from(s: Seq<char>, p: int) -> nat
    decreases s.len() - p,
{
    if p < 0 || p >= s.len() {
        0
    } else {
        let e = line_end(s, p);
        proof {
            lemma_line_end_bounds(s, p);
        }
        (if is_omitted_placement(line_at(s, p)) {
            1nat
        } else {
            0nat
        }) + placements_from(s, e)
    }
}

/// The number of placements whose reference direction is omitted.
pub open spec fn placement_count(s: Seq<char>) -> nat {
    placements_from(s, 0)
}

/// The reference chosen for an axis id: the last entry with that id.
pub open spec fn axis_lookup_before(axes: Seq<(u64, Option<Seq<char>>)>, id: u64, n: int) -> Option<
    Option<Seq<char>>,
>
    decreases n,
{
    if n <= 0 {
        None
    } else if axes[n - 1].0 == id {
        Some(axes[n - 1].1)
    } else {
        axis_lookup_before(axes, id, n - 1)
    }
}

pub open spec fn axis_lookup(axes: Seq<(u64, Option<Seq<char>>)>, id: u64) -> Option<
    Option<Seq<char>>,
> {
    axis_lookup_before(axes, id, axes.len() as int)
}

pub open spec fn axis_entry(a: AxisDirection) -> (u64, Option<Seq<char>>) {
    (
        a.id,
        match a.reference {
            AxisReference::Perpendicular(t) => Some(t@),
            AxisReference::Degenerate => None,
        },
    )
}

pub open spec fn axes_view(axes: Seq<AxisDirection>) -> Seq<(u64, Option<Seq<char>>)> {
    axes.map_values(|a: AxisDirection| axis_entry(a))
}

/// The new `DIRECTION` line with entity id `id`.
pub open spec fn direction_line(id: nat, coordinates: Seq<char>) -> Seq<char> {
    seq!['#'] + decimal(id) + direction_open() + coordinates + direction_close()
}

/// What one line becomes: unchanged (`None`), or its rewritten text and the
/// `DIRECTION` line to add, where `id` is the id the new entity gets.
pub open spec fn rewrite_line(line: Seq<char>, axes: Seq<(u64, Option<Seq<char>>)>, id: nat) -> Result<
    Option<(Seq<char>, Seq<char>)>,
    StepError,
> {
    let t = trim(line);
    match entity(t) {
        None => Ok(None),
        Some((_, body)) => if !(starts_with(body, placement_prefix()) && ends_with(
            t,
            omitted_suffix(),
        )) {
            Ok(None)
        } else {
            let inner = body.skip(placement_prefix().len() as int);
            if !ends_with(inner, close_suffix()) {
                Err(StepError::MalformedPlacement)
            } else {
                let attrs = inner.take(inner.len() - close_suffix().len());
                let parts = split_char(attrs, ',');
                if parts.len() != 4 || trim(parts[3]) != "$"@ {
                    Err(StepError::UnsupportedPlacementLayout)
                } else {
                    let axis = trim(parts[2]);
                    if !(axis.len() > 0 && axis[0] == '#') {
                        Err(StepError::MissingAxis)
                    } else {
                        match parse_u64(axis.drop_first()) {
                            None => Err(StepError::InvalidAxisReference),
                            Some(axis_id) => match axis_lookup(axes, axis_id) {
                                None => Err(StepError::AxisNotFound(axis_id)),
                                Some(None) => Err(StepError::AxisInvalid(axis_id)),
                                Some(Some(c)) => Ok(
                                    Some(
                                        (
                                            replace_first(
                                                line,
                                                omitted_suffix(),
                                                reference_open() + decimal(id) + close_suffix(),
                                            ),
                                            direction_line(id, c),
                                        ),
                                    ),
                                ),
                            },
                        }
                    }
                }
            }
        },
    }
}

/// The second pass from the line at `p` on, starting from the rewritten text,
/// the added lines and the number of new entities so far; new ids count up
/// from `base + 1`.
pub open spec fn rewrite_from(
    s: Seq<char>,
    p: int,
    axes: Seq<(u64, Option<Seq<char>>)>,
    base: nat,
    state: (Seq<char>, Seq<char>, nat),
) -> Result<(Seq<char>, Seq<char>, nat), StepError>
    decreases s.len() - p,
{
    if p < 0 || p >= s.len() {
        Ok(state)
    } else {
        let e = line_end(s, p);
        proof {
            lemma_line_end_bounds(s, p);
        }
        let line = line_at(s, p);
        match rewrite_line(line, axes, base + state.2 + 1) {
            Err(err) => Err(err),
            Ok(None) => rewrite_from(s, e, axes, base, (state.0 + line, state.1, state.2)),
            Ok(Some((l, a))) => rewrite_from(s, e, axes, base, (state.0 + l, state.1 + a, state.2 + 1)),
        }
    }
}

/// The normalized text and the number of filled references, or the error.
pub open spec fn normalized(s: Seq<char>, axes: Seq<(u64, Option<Seq<char>>)>) -> Result<
    (Seq<char>, nat),
    StepError,
> {
    if direction_scan(s).1 {
        Err(StepError::MalformedDirection)
    } else {
        match rewrite_from(s, 0, axes, max_entity_id(s) as nat, (Seq::empty(), Seq::empty(), 0)) {
            Err(e) => Err(e),
            Ok((rep, added, count)) => if count == 0 {
                Ok((s, 0))
            } else {
                match find(rep, data_marker()) {
                    None => Err(StepError::DataSectionMissing),
                    Some(d) => match find(rep.skip(d), endsec_marker()) {
                        None => Err(StepError::EndsecMissing),
                        Some(k) => Ok((rep.take(d + k) + added + rep.skip(d + k), count)),
                    },
                }
            },
        }
    }
}

impl StepError {
    /// The text of the error.
    pub fn message(&self) -> (m: String)
        ensures
            m@ == error_message(*self),
    {
        let v: Vec<char> = match self {
            StepError::MalformedDirection => chars_of("malformed DIRECTION"),
            StepError::MalformedDirectionCoordinates => chars_of("malformed DIRECTION coordinates"),
            StepError::MalformedPlacement => chars_of("malformed AXIS2_PLACEMENT_3D"),
            StepError::UnsupportedPlacementLayout => chars_of(
                "unsupported AXIS2_PLACEMENT_3D layout",
            ),
            StepError::MissingAxis => chars_of("missing AXIS2_PLACEMENT_3D axis"),
            StepError::InvalidAxisReference => chars_of(
                "invalid AXIS2_PLACEMENT_3D axis reference",
            ),
            StepError::AxisNotFound(id) => {
                let mut v = chars_of("AXIS2_PLACEMENT_3D axis #");
                push_decimal(&mut v, *id);
                append_chars(&mut v, &chars_of(" not found"));
                v
            },
            StepError::AxisInvalid(id) => {
                let mut v = chars_of("AXIS2_PLACEMENT_3D axis #");
                push_decimal(&mut v, *id);
                append_chars(&mut v, &chars_of(" is invalid"));
                v
            },
            StepError::DataSectionMissing => chars_of("STEP DATA section missing"),
            StepError::EndsecMissing => chars_of("STEP DATA ENDSEC missing"),
        };
        string_from_chars(v)
    }
}

pub open spec fn entity_view(e: Option<(u64, Vec<char>)>) -> Option<(u64, Seq<char>)> {
    match e {
        Some((id, body)) => Some((id, body@)),
        None => None,
    }
}

/// `parse_entity` over characters.
fn entity_chars(line: &[char]) -> (r: Option<(u64, Vec<char>)>)
    ensures
        entity_view(r) == entity(line@),
{
    if line.len() == 0 || line[0] != '#' {
        return None;
    }
    let rest = sub_chars(line, 1, line.len());
    assert(rest@ =~= line@.drop_first());
    let eq: Vec<char> = vec!['='];
    assert(eq@ =~= seq!['=']);
    match find_chars(&rest, &eq) {
        None => None,
        Some(k) => {
            proof {
                lemma_find_occurs(rest@, eq@);
            }
            let id_text = trim_chars(&sub_chars(&rest, 0, k));
            assert(rest@.subrange(0, k as int) =~= rest@.take(k as int));
            match parse_u64_chars(&id_text) {
                None => None,
                Some(id) => {
                    let body_raw = sub_chars(&rest, k + 1, rest.len());
                    assert(body_raw@ =~= rest@.skip(k + 1));
                    let body = trim_chars(&body_raw);
                    Some((id, body))
                },
            }
        },
    }
}

/// Splits an entity line `#id=body` into its id and body.
pub fn parse_entity(line: &str) -> (r: Option<(u64, String)>)
    ensures
        match r {
            Some((id, body)) => entity(line@) == Some((id, body@)),
            None => entity(line@) is None,
        },
{
    let chars = chars_of(line);
    match entity_chars(&chars) {
        Some((id, body)) => Some((id, string_from_chars(body))),
        None => None,
    }
}

/// The trimmed line that starts at `p` and ends before `e`, and its entity.
fn line_entity(s: &[char], p: usize, e: usize) -> (r: (Vec<char>, Option<(u64, Vec<char>)>))
    requires
        p <= e <= s.len(),
    ensures
        r.0@ == trim(s@.subrange(p as int, e as int)),
        entity_view(r.1) == entity(r.0@),
{
    let line = sub_chars(s, p, e);
    let t = trim_chars(&line);
    let ent = entity_chars(&t);
    (t, ent)
}

fn coordinates_chars(body: &[char]) -> (r: Option<Vec<char>>)
    ensures
        match r {
            Some(c) => direction_coordinates(body@) == Some(c@),
            None => direction_coordinates(body@) is None,
        },
{
    match rfind_char_chars(body, '(') {
        None => None,
        Some(a) => {
            proof {
                lemma_rfind_in_bounds(body@, '(', body@.len() as int);
            }
            assert(a < body.len());
            let tail = sub_chars(body, a + 1, body.len());
            assert(tail@ =~= body@.skip(a + 1));
            let close: Vec<char> = vec![')'];
            assert(close@ =~= seq![')']);
            match find_chars(&tail, &close) {
                None => None,
                Some(k) => {
                    proof {
                        lemma_find_occurs(tail@, close@);
                    }
                    Some(sub_chars(body, a + 1, a + 1 + k))
                },
            }
        },
    }
}

proof fn lemma_rfind_in_bounds(s: Seq<char>, c: char, i: int)
    requires
        i <= s.len(),
        rfind_before(s, c, i) is Some,
    ensures
        0 <= rfind_before(s, c, i)->0 < i,
    decreases i,
{
    if i > 0 && s[i - 1] != c {
        lemma_rfind_in_bounds(s, c, i - 1);
    }
}

/// The first pass: the `DIRECTION` records, whether one is malformed, the
/// largest entity id and the number of placements with an omitted reference.
pub fn scan_directions(input: &str) -> (r: DirectionScan)
    ensures
        r.records@.len() == direction_scan(input@).0.len(),
        forall|i: int|
            0 <= i < r.records@.len() ==> (#[trigger] r.records@[i]).id == direction_scan(
                input@,
            ).0[i].0 && r.records@[i].coordinates@ == direction_scan(input@).0[i].1,
        r.malformed == direction_scan(input@).1,
        r.max_id == max_entity_id(input@),
        r.placements as nat == placement_count(input@),
{
    let s = chars_of(input);
    let (records, malformed) = scan_chars(&s);
    let max_id = max_id_chars(&s);
    let placements = placements_chars(&s);
    DirectionScan { records, malformed, max_id, placements }
}

fn scan_chars(s: &[char]) -> (r: (Vec<DirectionRecord>, bool))
    ensures
        r.0@.len() == direction_scan(s@).0.len(),
        forall|i: int|
            0 <= i < r.0@.len() ==> (#[trigger] r.0@[i]).id == direction_scan(s@).0[i].0
                && r.0@[i].coordinates@ == direction_scan(s@).0[i].1,
        r.1 == direction_scan(s@).1,
{
    let prefix = chars_of("DIRECTION(");
    let mut records: Vec<DirectionRecord> = Vec::new();
    let ghost mut done: Seq<(u64, Seq<char>)> = Seq::empty();
    let mut p: usize = 0;
    while p < s.len()
        invariant
            p <= s.len(),
            prefix@ == direction_prefix(),
            records@.len() == done.len(),
            forall|i: int|
                0 <= i < records@.len() ==> (#[trigger] records@[i]).id == done[i].0
                    && records@[i].coordinates@ == done[i].1,
            direction_scan(s@) == (done + scan_from(s@, p as int).0, scan_from(s@, p as int).1),
        decreases s.len() - p,
    {
        let e = line_end_chars(s, p);
        let (_, ent) = line_entity(s, p, e);
        match ent {
            Some((id, body)) => {
                if starts_with_chars(&body, &prefix) {
                    match coordinates_chars(&body) {
                        None => {
                            return (records, true);
                        },
                        Some(c) => {
                            proof {
                                let rest = scan_from(s@, e as int);
                                assert(done.push((id, c@)) + rest.0 =~= done + (seq![(id, c@)]
                                    + rest.0));
                                done = done.push((id, c@));
                            }
                            records.push(DirectionRecord { id, coordinates: string_from_chars(c) });
                        },
                    }
                }
            },
            None => {},
        }
        p = e;
    }
    assert(done + Seq::<(u64, Seq<char>)>::empty() =~= done);
    (records, false)
}

fn max_id_chars(s: &[char]) -> (r: u64)
    ensures
        r == max_entity_id(s@),
{
    let mut best: u64 = 0;
    let mut p: usize = 0;
    while p < s.len()
        invariant
            p <= s.len(),
            max_entity_id(s@) == (if best > max_id_from(s@, p as int) {
                best
            } else {
                max_id_from(s@, p as int)
            }),
        decreases s.len() - p,
    {
        let e = line_end_chars(s, p);
        let (_, ent) = line_entity(s, p, e);
        match ent {
            Some((id, _)) => {
                if id > best {
                    best = id;
                }
            },
            None => {},
        }
        p = e;
    }
    best
}

proof fn lemma_placements_bound(s: Seq<char>, p: int)
    requires
        0 <= p <= s.len(),
    ensures
        placements_from(s, p) <= s.len() - p,
    decreases s.len() - p,
{
    if p < s.len() {
        lemma_line_end_bounds(s, p);
        lemma_placements_bound(s, line_end(s, p));
    }
}

fn omitted_placement_chars(line: &[char]) -> (r: bool)
    ensures
        r == is_omitted_placement(line@),
{
    let t = trim_chars(line);
    match entity_chars(&t) {
        Some((_, body)) => {
            let prefix = chars_of("AXIS2_PLACEMENT_3D(");
            let suffix = chars_of(",$);");
            starts_with_chars(&body, &prefix) && ends_with_chars(&t, &suffix)
        },
        None => false,
    }
}

fn placements_chars(s: &[char]) -> (r: usize)
    ensures
        r as nat == placement_count(s@),
{
    proof {
        lemma_placements_bound(s@, 0);
    }
    let mut count: usize = 0;
    let mut p: usize = 0;
    while p < s.len()
        invariant
            p <= s.len(),
            placement_count(s@) == count + placements_from(s@, p as int),
            placement_count(s@) <= s.len(),
        decreases s.len() - p,
    {
        let e = line_end_chars(s, p);
        let line = sub_chars(s, p, e);
        if omitted_placement_chars(&line) {
            count += 1;
        }
        p = e;
    }
    count
}

/// The entry for `id` among `axes`: the last one with that id.
fn lookup_axis(axes: &[AxisDirection], id: u64) -> (r: Option<Option<Vec<char>>>)
    ensures
        match r {
            None => axis_lookup(axes_view(axes@), id) is None,
            Some(None) => axis_lookup(axes_view(axes@), id) == Some(None::<Seq<char>>),
            Some(Some(c)) => axis_lookup(axes_view(axes@), id) == Some(Some(c@)),
        },
{
    let ghost view = axes_view(axes@);
    let mut n = axes.len();
    while n > 0
        invariant
            n <= axes@.len(),
            view == axes_view(axes@),
            view.len() == axes@.len(),
            axis_lookup(view, id) == axis_lookup_before(view, id, n as int),
        decreases n,
    {
        assert(view[n - 1] == axis_entry(axes@[n - 1]));
        if axes[n - 1].id == id {
            return match &axes[n - 1].reference {
                AxisReference::Perpendicular(t) => Some(Some(chars_of(t.as_str()))),
                AxisReference::Degenerate => Some(None),
            };
        }
        n -= 1;
    }
    None
}

proof fn lemma_rewrite_line_unchanged(
    line: Seq<char>,
    axes: Seq<(u64, Option<Seq<char>>)>,
    a: nat,
    b: nat,
)
    requires
        !is_omitted_placement(line),
    ensures
        rewrite_line(line, axes, a) == Ok::<Option<(Seq<char>, Seq<char>)>, StepError>(None),
        rewrite_line(line, axes, b) == Ok::<Option<(Seq<char>, Seq<char>)>, StepError>(None),
{
}

/// The second pass over one line.
fn rewrite_line_chars(line: &[char], axes: &[AxisDirection], id: u64) -> (r: Result<
    Option<(Vec<char>, Vec<char>)>,
    StepError,
>)
    ensures
        match r {
            Err(e) => rewrite_line(line@, axes_view(axes@), id as nat) == Err::<
                Option<(Seq<char>, Seq<char>)>,
                StepError,
            >(e),
            Ok(None) => rewrite_line(line@, axes_view(axes@), id as nat) == Ok::<
                Option<(Seq<char>, Seq<char>)>,
                StepError,
            >(None),
            Ok(Some((l, a))) => rewrite_line(line@, axes_view(axes@), id as nat) == Ok::<
                Option<(Seq<char>, Seq<char>)>,
                StepError,
            >(Some((l@, a@))),
        },
{
    let t = trim_chars(line);
    let body = match entity_chars(&t) {
        None => {
            return Ok(None);
        },
        Some((_, body)) => body,
    };
    let prefix = chars_of("AXIS2_PLACEMENT_3D(");
    let suffix = chars_of(",$);");
    if !(starts_with_chars(&body, &prefix) && ends_with_chars(&t, &suffix)) {
        return Ok(None);
    }
    let inner = sub_chars(&body, prefix.len(), body.len());
    assert(inner@ =~= body@.skip(placement_prefix().len() as int));
    let close = chars_of(");");
    if !ends_with_chars(&inner, &close) {
        return Err(StepError::MalformedPlacement);
    }
    let attrs = sub_chars(&inner, 0, inner.len() - close.len());
    assert(attrs@ =~= inner@.take(inner@.len() - close_suffix().len()));
    let parts = split_char_chars(&attrs, ',');
    if parts.len() != 4 {
        return Err(StepError::UnsupportedPlacementLayout);
    }
    let last = trim_chars(&parts[3]);
    let dollar = chars_of("$");
    if !chars_eq(&last, &dollar) {
        return Err(StepError::UnsupportedPlacementLayout);
    }
    let axis = trim_chars(&parts[2]);
    if !(axis.len() > 0 && axis[0] == '#') {
        return Err(StepError::MissingAxis);
    }
    let digits = sub_chars(&axis, 1, axis.len());
    assert(digits@ =~= axis@.drop_first());
    let axis_id = match parse_u64_chars(&digits) {
        None => {
            return Err(StepError::InvalidAxisReference);
        },
        Some(axis_id) => axis_id,
    };
    let coordinates = match lookup_axis(axes, axis_id) {
        None => {
            return Err(StepError::AxisNotFound(axis_id));
        },
        Some(None) => {
            return Err(StepError::AxisInvalid(axis_id));
        },
        Some(Some(c)) => c,
    };
    let mut replaced: Vec<char> = Vec::new();
    match find_chars(line, &suffix) {
        Some(k) => {
            proof {
                lemma_find_occurs(line@, suffix@);
            }
            let n = line.len();
            assert(k + suffix.len() <= n);
            let after = k + suffix.len();
            replaced = sub_chars(line, 0, k);
            append_chars(&mut replaced, &chars_of(",#"));
            push_decimal(&mut replaced, id);
            append_chars(&mut replaced, &close);
            append_chars(&mut replaced, &sub_chars(line, after, line.len()));
            assert(replaced@ =~= line@.take(k as int) + (reference_open() + decimal(id as nat)
                + close_suffix()) + line@.skip(k + omitted_suffix().len()));
        },
        None => {
            replaced = sub_chars(line, 0, line.len());
            assert(replaced@ =~= line@);
        },
    }
    let mut added: Vec<char> = vec!['#'];
    push_decimal(&mut added, id);
    append_chars(&mut added, &chars_of("=DIRECTION('',("));
    append_chars(&mut added, &coordinates);
    append_chars(&mut added, &chars_of("));\n"));
    assert(added@ =~= direction_line(id as nat, coordinates@));
    Ok(Some((replaced, added)))
}

/// The whole normalization over characters.
fn normalize_chars(s: &[char], axes: &[AxisDirection]) -> (r: Result<(Vec<char>, usize), StepError>)
    requires
        max_entity_id(s@) + placement_count(s@) <= u64::MAX,
    ensures
        match r {
            Ok((t, n)) => normalized(s@, axes_view(axes@)) == Ok::<(Seq<char>, nat), StepError>(
                (t@, n as nat),
            ),
            Err(e) => normalized(s@, axes_view(axes@)) == Err::<(Seq<char>, nat), StepError>(e),
        },
{
    let (_, malformed) = scan_chars(s);
    if malformed {
        return Err(StepError::MalformedDirection);
    }
    let base = max_id_chars(s);
    let ghost ax = axes_view(axes@);
    let ghost start = (Seq::<char>::empty(), Seq::<char>::empty(), 0nat);
    let mut rep: Vec<char> = Vec::new();
    let mut added: Vec<char> = Vec::new();
    let mut count: u64 = 0;
    let mut p: usize = 0;
    proof {
        lemma_placements_bound(s@, 0);
    }
    while p < s.len()
        invariant
            p <= s.len(),
            base == max_entity_id(s@),
            ax == axes_view(axes@),
            start == (Seq::<char>::empty(), Seq::<char>::empty(), 0nat),
            !direction_scan(s@).1,
            base + placement_count(s@) <= u64::MAX,
            placement_count(s@) <= s.len(),
            count + placements_from(s@, p as int) <= placement_count(s@),
            rewrite_from(s@, 0, ax, base as nat, start) == rewrite_from(
                s@,
                p as int,
                ax,
                base as nat,
                (rep@, added@, count as nat),
            ),
        decreases s.len() - p,
    {
        let e = line_end_chars(s, p);
        let line = sub_chars(s, p, e);
        proof {
            lemma_placements_bound(s@, e as int);
        }
        assert(line@ == line_at(s@, p as int));
        let id: u64 = if count < u64::MAX - base {
            base + count + 1
        } else {
            u64::MAX
        };
        proof {
            if !is_omitted_placement(line@) {
                lemma_rewrite_line_unchanged(line@, ax, id as nat, (base + count + 1) as nat);
            }
        }
        match rewrite_line_chars(&line, axes, id) {
            Err(err) => {
                assert(rewrite_from(s@, p as int, ax, base as nat, (rep@, added@, count as nat))
                    == Err::<(Seq<char>, Seq<char>, nat), StepError>(err));
                return Err(err);
            },
            Ok(None) => {
                append_chars(&mut rep, &line);
            },
            Ok(Some((l, a))) => {
                append_chars(&mut rep, &l);
                append_chars(&mut added, &a);
                count += 1;
            },
        }
        p = e;
    }
    assert(rewrite_from(s@, p as int, ax, base as nat, (rep@, added@, count as nat)) == Ok::<
        (Seq<char>, Seq<char>, nat),
        StepError,
    >((rep@, added@, count as nat)));
    if count == 0 {
        assert(s@.subrange(0, s@.len() as int) =~= s@);
        return Ok((sub_chars(s, 0, s.len()), 0));
    }
    let data = chars_of("DATA;");
    let d = match find_chars(&rep, &data) {
        None => {
            return Err(StepError::DataSectionMissing);
        },
        Some(d) => d,
    };
    proof {
        lemma_find_occurs(rep@, data@);
    }
    let tail = sub_chars(&rep, d, rep.len());
    assert(tail@ =~= rep@.skip(d as int));
    let endsec = chars_of("ENDSEC;");
    let k = match find_chars(&tail, &endsec) {
        None => {
            return Err(StepError::EndsecMissing);
        },
        Some(k) => k,
    };
    proof {
        lemma_find_occurs(tail@, endsec@);
    }
    let at = d + k;
    let mut out = sub_chars(&rep, 0, at);
    append_chars(&mut out, &added);
    append_chars(&mut out, &sub_chars(&rep, at, rep.len()));
    assert(out@ =~= rep@.take(at as int) + added@ + rep@.skip(at as int));
    Ok((out, count as usize))
}

/// Fills each omitted `ref_direction` of an `AXIS2_PLACEMENT_3D` with a new
/// `DIRECTION` entity perpendicular to the placement's axis, and returns the
/// text and the number of filled placements. `axes` holds, for each
/// three-coordinate `DIRECTION` entity of `input`, the coordinates of its
/// perpendicular unit vector; the last entry of an id counts.
pub fn normalize_optional_axis_directions(input: &str, axes: &[AxisDirection]) -> (r: Result<
    (String, usize),
    String,
>)
    requires
        max_entity_id(input@) + placement_count(input@) <= u64::MAX,
    ensures
        match r {
            Ok((text, count)) => normalized(input@, axes_view(axes@)) == Ok::<
                (Seq<char>, nat),
                StepError,
            >((text@, count as nat)),
            Err(m) => normalized(input@, axes_view(axes@)) is Err && m@ == error_message(
                normalized(input@, axes_view(axes@))->Err_0,
            ),
        },
{
    let s = chars_of(input);
    match normalize_chars(&s, axes) {
        Ok((t, n)) => Ok((string_from_chars(t), n)),
        Err(e) => Err(e.message()),
    }
}

/// A line that is not an `AXIS2_PLACEMENT_3D` with an omitted reference is
/// never rewritten, whatever the axes and the id at hand.
pub proof fn law_other_lines_unchanged(line: Seq<char>, axes: Seq<(u64, Option<Seq<char>>)>, id: nat)
    requires
        !is_omitted_placement(line),
    ensures
        rewrite_line(line, axes, id) == Ok::<Option<(Seq<char>, Seq<char>)>, StepError>(None),
{
}

proof fn lemma_omitted_placement_rewritten(
    line: Seq<char>,
    axes: Seq<(u64, Option<Seq<char>>)>,
    id: nat,
)
    requires
        is_omitted_placement(line),
    ensures
        rewrite_line(line, axes, id) != Ok::<Option<(Seq<char>, Seq<char>)>, StepError>(None),
{
}

proof fn lemma_rewrite_count(
    s: Seq<char>,
    p: int,
    axes: Seq<(u64, Option<Seq<char>>)>,
    base: nat,
    state: (Seq<char>, Seq<char>, nat),
)
    requires
        0 <= p,
        rewrite_from(s, p, axes, base, state) is Ok,
    ensures
        rewrite_from(s, p, axes, base, state)->Ok_0.2 == state.2 + placements_from(s, p),
    decreases s.len() - p,
{
    if p < s.len() {
        lemma_line_end_bounds(s, p);
        let e = line_end(s, p);
        let line = line_at(s, p);
        if is_omitted_placement(line) {
            lemma_omitted_placement_rewritten(line, axes, base + state.2 + 1);
        } else {
            law_other_lines_unchanged(line, axes, base + state.2 + 1);
        }
        match rewrite_line(line, axes, base + state.2 + 1) {
            Err(_) => {},
            Ok(None) => {
                lemma_rewrite_count(s, e, axes, base, (state.0 + line, state.1, state.2));
            },
            Ok(Some((l, a))) => {
                lemma_rewrite_count(s, e, axes, base, (state.0 + l, state.1 + a, state.2 + 1));
            },
        }
    }
}

proof fn lemma_rewrite_without_placements(
    s: Seq<char>,
    p: int,
    axes: Seq<(u64, Option<Seq<char>>)>,
    base: nat,
    state: (Seq<char>, Seq<char>, nat),
)
    requires
        0 <= p,
        placements_from(s, p) == 0,
    ensures
        rewrite_from(s, p, axes, base, state) is Ok,
        rewrite_from(s, p, axes, base, state)->Ok_0.2 == state.2,
    decreases s.len() - p,
{
    if p < s.len() {
        lemma_line_end_bounds(s, p);
        let e = line_end(s, p);
        let line = line_at(s, p);
        law_other_lines_unchanged(line, axes, base + state.2 + 1);
        lemma_rewrite_without_placements(s, e, axes, base, (state.0 + line, state.1, state.2));
    }
}

/// When the normalization succeeds, it fills exactly as many references as
/// the text has `AXIS2_PLACEMENT_3D` lines ending in `,$);`.
pub proof fn law_count_is_placement_count(s: Seq<char>, axes: Seq<(u64, Option<Seq<char>>)>)
    requires
        normalized(s, axes) is Ok,
    ensures
        normalized(s, axes)->Ok_0.1 == placement_count(s),
{
    let start = (Seq::<char>::empty(), Seq::<char>::empty(), 0nat);
    lemma_rewrite_count(s, 0, axes, max_entity_id(s) as nat, start);
}

/// A text with no omitted placement reference and no malformed `DIRECTION`
/// comes back unchanged, with a count of zero.
pub proof fn law_nothing_to_fill_is_identity(s: Seq<char>, axes: Seq<(u64, Option<Seq<char>>)>)
    requires
        !direction_scan(s).1,
        placement_count(s) == 0,
    ensures
        normalized(s, axes) == Ok::<(Seq<char>, nat), StepError>((s, 0)),
{
    let start = (Seq::<char>::empty(), Seq::<char>::empty(), 0nat);
    lemma_rewrite_without_placements(s, 0, axes, max_entity_id(s) as nat, start);
}

/// A line that a pass leaves as it is and does not refuse: not an
/// `AXIS2_PLACEMENT_3D` with an omitted reference, and no malformed `DIRECTION`.
pub open spec fn settled_line(line: Seq<char>) -> bool {
    &&& !is_omitted_placement(line)
    &&& match entity(trim(line)) {
        Some((_, body)) => starts_with(body, direction_prefix()) ==> direction_coordinates(
            body,
        ) is Some,
        None => true,
    }
}

/// Every line from `p` on is settled.
pub open spec fn settled_from(s: Seq<char>, p: int) -> bool
    decreases s.len() - p,
{
    if p < 0 || p >= s.len() {
        true
    } else {
        let e = line_end(s, p);
        proof {
            lemma_line_end_bounds(s, p);
        }
        settled_line(line_at(s, p)) && settled_from(s, e)
    }
}

/// In an omitted placement line, the first `,$);` is the one that ends the
/// line's text: only white space follows it.
pub open spec fn reference_ends_line(line: Seq<char>) -> bool {
    match find(line, omitted_suffix()) {
        Some(i) => forall|j: int|
            i + omitted_suffix().len() <= j < line.len() ==> is_white_space(#[trigger] line[j]),
        None => false,
    }
}

/// Position `p` of the text begins a line.
pub open spec fn begins_line(s: Seq<char>, p: int) -> bool {
    p == 0 || s[p - 1] == '\n'
}

/// The first `ENDSEC;` after the first `DATA;` begins a line: where the
/// normalization inserts its new lines.
pub open spec fn data_endsec_begins_line(s: Seq<char>) -> bool {
    match find(s, data_marker()) {
        Some(d) => match find(s.skip(d), endsec_marker()) {
            Some(k) => begins_line(s, d + k),
            None => true,
        },
        None => true,
    }
}

/// Where a text stands as to its first `DATA;` and the first `ENDSEC;` after
/// it: 0, no `DATA;`; 1, no `ENDSEC;` after it; 2, one that begins a line;
/// 3, one that does not.
pub open spec fn data_section_state(x: Seq<char>) -> int {
    match find(x, data_marker()) {
        None => 0,
        Some(d) => match find_from(x, endsec_marker(), d) {
            None => 1,
            Some(k) => if begins_line(x, k) {
                2
            } else {
                3
            },
        },
    }
}

/// Where a text stands as to its first `ENDSEC;`: 0, none; 2, it begins a
/// line; 3, it does not.
pub open spec fn first_endsec_state(x: Seq<char>) -> int {
    match find(x, endsec_marker()) {
        None => 0,
        Some(k) => if begins_line(x, k) {
            2
        } else {
            3
        },
    }
}

/// The state of a text followed by `y`, from the state of the text.
pub open spec fn data_section_then(state: int, y: Seq<char>) -> int {
    if state == 0 {
        data_section_state(y)
    } else if state == 1 {
        if first_endsec_state(y) == 0 {
            1
        } else {
            first_endsec_state(y)
        }
    } else {
        state
    }
}

/// No line break but possibly the last character.
pub open spec fn one_line(s: Seq<char>) -> bool {
    forall|j: int| 0 <= j < s.len() - 1 ==> s[j] != '\n'
}

proof fn lemma_settled_passes(s: Seq<char>, p: int)
    requires
        0 <= p,
        settled_from(s, p),
    ensures
        placements_from(s, p) == 0,
        !scan_from(s, p).1,
    decreases s.len() - p,
{
    if p < s.len() {
        lemma_line_end_bounds(s, p);
        lemma_settled_passes(s, line_end(s, p));
    }
}

proof fn lemma_settled_shift(x: Seq<char>, y: Seq<char>, q: int)
    requires
        0 <= q,
    ensures
        settled_from(x + y, x.len() + q) == settled_from(y, q),
    decreases y.len() - q,
{
    if q < y.len() {
        lemma_line_end_bounds(y, q);
        lemma_line_end_shift(x, y, q);
        let e = line_end(y, q);
        assert(line_at(x + y, x.len() + q) =~= line_at(y, q));
        lemma_settled_shift(x, y, e);
    }
}

proof fn lemma_settled_concat(x: Seq<char>, y: Seq<char>, p: int)
    requires
        0 <= p <= x.len(),
        x.len() == 0 || x.last() == '\n',
    ensures
        settled_from(x + y, p) == (settled_from(x, p) && settled_from(y, 0)),
    decreases x.len() - p,
{
    if p == x.len() {
        lemma_settled_shift(x, y, 0);
    } else {
        lemma_line_end_bounds(x, p);
        lemma_line_end_prefix(x, y, p);
        let e = line_end(x, p);
        assert(line_at(x + y, p) =~= line_at(x, p));
        lemma_settled_concat(x, y, e);
    }
}

proof fn lemma_settled_single(line: Seq<char>)
    requires
        line.len() > 0,
        one_line(line),
        settled_line(line),
    ensures
        settled_from(line, 0),
{
    lemma_line_end_single(line, 0);
    assert(line_at(line, 0) =~= line);
    assert(settled_from(line, line.len() as int));
}

/// A line whose text ends in `);`, with no `$` before the `)`, is settled.
proof fn lemma_settled_by_ending(line: Seq<char>)
    requires
        trim(line).len() >= 3,
        trim(line)[trim(line).len() - 1] == ';',
        trim(line)[trim(line).len() - 2] == ')',
        trim(line)[trim(line).len() - 3] != '$',
    ensures
        settled_line(line),
{
    let t = trim(line);
    reveal_strlit(",$);");
    reveal_strlit("DIRECTION(");
    if t.len() >= 4 && t.subrange(t.len() - 4, t.len() as int) == omitted_suffix() {
        assert(t.subrange(t.len() - 4, t.len() as int)[1] == t[t.len() - 3]);
    }
    assert(!ends_with(t, omitted_suffix()));
    if t.len() > 0 && t[0] == '#' {
        let rest = t.drop_first();
        if find(rest, seq!['=']) is Some {
            let k = find(rest, seq!['='])->0;
            lemma_find_occurs(rest, seq!['=']);
            let y = rest.skip(k + 1);
            let z = trim_start(y);
            lemma_trim_start_suffix(y);
            let a = y.len() - z.len();
            if z.len() > 0 {
                assert(z.last() == t.last());
                assert(trim_end(z) == z);
            }
            let body = trim(y);
            if starts_with(body, direction_prefix()) {
                assert(body == z);
                let n = body.len() as int;
                assert(body[n - 1] == t[t.len() - 1]);
                assert(body[n - 2] == t[t.len() - 2]);
                assert(body.subrange(0, 10)[9] == body[9]);
                lemma_rfind_some(body, '(', n, 9);
                let r = rfind_char(body, '(')->0;
                let tail = body.skip(r + 1);
                assert(tail.subrange(n - 2 - (r + 1), n - 2 - (r + 1) + 1) =~= seq![')']);
                lemma_find_from_some(tail, seq![')'], 0, n - 2 - (r + 1));
            }
        }
    }
}

proof fn lemma_markers()
    ensures
        data_marker().len() == 5,
        endsec_marker().len() == 7,
        !data_marker().contains('\n'),
        !endsec_marker().contains('\n'),
        !data_marker().contains(','),
        !endsec_marker().contains(','),
        data_marker()[0] == 'D',
        endsec_marker()[0] == 'E',
{
    reveal_strlit("DATA;");
    reveal_strlit("ENDSEC;");
    assert(!data_marker().contains('\n'));
    assert(!endsec_marker().contains('\n'));
    assert(!data_marker().contains(','));
    assert(!endsec_marker().contains(','));
}

/// A pattern that starts with none of the characters of `x`, holds no comma,
/// and starts with no white space, occurs in `h + x + t`, where `x` starts
/// with a comma and `t` is white space, exactly where it occurs in `h`.
proof fn lemma_marker_occurrences(h: Seq<char>, x: Seq<char>, t: Seq<char>, m: Seq<char>)
    requires
        x.len() > 0,
        x[0] == ',',
        forall|k: int| 0 <= k < x.len() ==> x[k] != m[0],
        m.len() > 0,
        !m.contains(','),
        !is_white_space(m[0]),
        forall|k: int| 0 <= k < t.len() ==> is_white_space(#[trigger] t[k]),
    ensures
        forall|j: int| #[trigger] occurs_at(h + x + t, m, j) <==> occurs_at(h, m, j),
{
    let u = h + x + t;
    assert forall|j: int| #[trigger] occurs_at(u, m, j) <==> occurs_at(h, m, j) by {
        if occurs_at(h, m, j) {
            assert(u.subrange(j, j + m.len()) =~= h.subrange(j, j + m.len()));
        }
        if occurs_at(u, m, j) {
            if j + m.len() <= h.len() {
                assert(u.subrange(j, j + m.len()) =~= h.subrange(j, j + m.len()));
            } else if j < h.len() {
                assert(m[h.len() - j] == u.subrange(j, j + m.len())[h.len() - j]);
                assert(u[h.len() as int] == x[0]);
            } else if j < h.len() + x.len() {
                assert(m[0] == u.subrange(j, j + m.len())[0]);
                assert(u[j] == x[j - h.len()]);
            } else {
                assert(m[0] == u.subrange(j, j + m.len())[0]);
                assert(u[j] == t[j - h.len() - x.len()]);
            }
        }
    }
}

/// Two texts with the same `DATA;`s and `ENDSEC;`s, all within a common
/// start `h`, stand alike as to their data section.
proof fn lemma_same_sections(a: Seq<char>, b: Seq<char>, h: Seq<char>)
    requires
        h.len() <= a.len(),
        h.len() <= b.len(),
        a.take(h.len() as int) == h,
        b.take(h.len() as int) == h,
        forall|j: int| #[trigger] occurs_at(a, data_marker(), j) <==> occurs_at(h, data_marker(), j),
        forall|j: int| #[trigger] occurs_at(b, data_marker(), j) <==> occurs_at(h, data_marker(), j),
        forall|j: int| #[trigger] occurs_at(a, endsec_marker(), j) <==> occurs_at(h, endsec_marker(), j),
        forall|j: int| #[trigger] occurs_at(b, endsec_marker(), j) <==> occurs_at(h, endsec_marker(), j),
    ensures
        data_section_state(a) == data_section_state(b),
        first_endsec_state(a) == first_endsec_state(b),
{
    let dm = data_marker();
    let em = endsec_marker();
    assert forall|j: int| 0 <= j implies (occurs_at(a, dm, j) <==> occurs_at(b, dm, j)) by {
        assert(occurs_at(a, dm, j) <==> occurs_at(h, dm, j));
        assert(occurs_at(b, dm, j) <==> occurs_at(h, dm, j));
    }
    assert forall|j: int| 0 <= j implies (occurs_at(a, em, j) <==> occurs_at(b, em, j)) by {
        assert(occurs_at(a, em, j) <==> occurs_at(h, em, j));
        assert(occurs_at(b, em, j) <==> occurs_at(h, em, j));
    }
    lemma_find_from_same(a, b, dm, 0);
    lemma_find_from_same(a, b, em, 0);
    if find_from(a, em, 0) is Some {
        let k = find_from(a, em, 0)->0;
        lemma_find_in_bounds(a, em, 0);
        assert(occurs_at(h, em, k));
        if k > 0 {
            assert(a[k - 1] == a.take(h.len() as int)[k - 1]);
            assert(b[k - 1] == b.take(h.len() as int)[k - 1]);
        }
    }
    if find(a, dm) is Some {
        let d = find(a, dm)->0;
        lemma_find_in_bounds(a, dm, 0);
        lemma_find_from_same(a, b, em, d);
        if find_from(a, em, d) is Some {
            let k = find_from(a, em, d)->0;
            lemma_find_in_bounds(a, em, d);
            assert(occurs_at(h, em, k));
            if k > 0 {
                assert(a[k - 1] == a.take(h.len() as int)[k - 1]);
                assert(b[k - 1] == b.take(h.len() as int)[k - 1]);
            }
        }
    }
}

/// The data-section state of a text that ends a line, followed by more.
proof fn lemma_data_section_concat(x: Seq<char>, y: Seq<char>)
    requires
        x.len() == 0 || x.last() == '\n',
    ensures
        data_section_state(x + y) == data_section_then(data_section_state(x), y),
{
    let dm = data_marker();
    let em = endsec_marker();
    lemma_markers();
    lemma_find_from_concat(x, y, dm, 0);
    if find(x, dm) is Some {
        let d = find(x, dm)->0;
        lemma_find_in_bounds(x, dm, 0);
        lemma_find_from_concat(x, y, em, d);
        if find_from(x, em, d) is Some {
            let k = find_from(x, em, d)->0;
            lemma_find_in_bounds(x, em, d);
            if k > 0 {
                assert((x + y)[k - 1] == x[k - 1]);
            }
        } else if find_from(y, em, 0) is Some {
            let k = find_from(y, em, 0)->0;
            lemma_find_in_bounds(y, em, 0);
            assert((x + y)[x.len() + k - 1] == if k == 0 {
                x.last()
            } else {
                y[k - 1]
            });
        }
    } else if find(y, dm) is Some {
        let d = find(y, dm)->0;
        lemma_find_in_bounds(y, dm, 0);
        lemma_find_from_shift(x, y, em, d);
        if find_from(y, em, d) is Some {
            let k = find_from(y, em, d)->0;
            lemma_find_in_bounds(y, em, d);
            if x.len() + k > 0 {
                assert((x + y)[x.len() + k - 1] == if k == 0 {
                    x.last()
                } else {
                    y[k - 1]
                });
            }
        }
    }
}

/// The condition on a text's data section, as a state.
proof fn lemma_data_endsec_state(x: Seq<char>)
    ensures
        data_endsec_begins_line(x) <==> data_section_state(x) != 3,
{
    let dm = data_marker();
    if find(x, dm) is Some {
        let d = find(x, dm)->0;
        lemma_find_in_bounds(x, dm, 0);
        lemma_find_from_skip(x, endsec_marker(), d, 0);
    }
}

/// What an omitted placement line becomes: still one line, settled, and with
/// its `DATA;` and `ENDSEC;` where the line had them.
proof fn lemma_rewritten_line(line: Seq<char>, id: nat)
    requires
        one_line(line),
        reference_ends_line(line),
    ensures
        ({
            let l = replace_first(line, omitted_suffix(), reference_open() + decimal(id) + close_suffix());
            &&& l.len() > 0
            &&& one_line(l)
            &&& settled_line(l)
            &&& line.last() == '\n' ==> l.last() == '\n'
            &&& data_section_state(l) == data_section_state(line)
            &&& first_endsec_state(l) == first_endsec_state(line)
        }),
{
    reveal_strlit(",$);");
    reveal_strlit(",#");
    reveal_strlit(");");
    let i = find(line, omitted_suffix())->0;
    lemma_find_occurs(line, omitted_suffix());
    lemma_decimal_digits(id);
    let dec = decimal(id);
    let r = reference_open() + dec + close_suffix();
    let head = line.take(i);
    let tail = line.skip(i + 4);
    let l = head + r + tail;
    assert(l == replace_first(line, omitted_suffix(), r));
    assert(r[0] == ',');
    assert(r[r.len() - 1] == ';');
    assert(r[r.len() - 2] == ')');
    assert(r[r.len() - 3] == dec[dec.len() - 1]);
    assert forall|k: int| 0 <= k < r.len() implies r[k] != '\n' && r[k] != 'E' by {
        if 2 <= k < 2 + dec.len() {
            assert(r[k] == dec[k - 2]);
            assert(is_digit(dec[k - 2]));
        }
    }
    assert forall|j: int| 0 <= j < tail.len() implies is_white_space(#[trigger] tail[j]) by {
        assert(tail[j] == line[i + 4 + j]);
    }
    // The occurrence of `,$);` holds no line break, so the line goes on past it
    // whenever it ends with one.
    if line.last() == '\n' {
        assert(line.subrange(i, i + 4)[3] == ';');
        assert(i + 4 < line.len());
        assert(tail.last() == line.last());
        assert(l.last() == tail.last());
    }
    assert forall|j: int| 0 <= j < l.len() - 1 implies l[j] != '\n' by {
        if j < i {
            assert(l[j] == line[j]);
        } else if j >= i + r.len() {
            assert(l[j] == line[j - r.len() + 4]);
        }
    }
    // The text of the new line ends with the new reference.
    lemma_trim_start_concat(head, r + tail);
    assert(head + r + tail =~= head + (r + tail));
    let w = trim_start(head);
    assert(trim_start(l) =~= w + r + tail);
    lemma_trim_end_take(w + r + tail, (w.len() + r.len()) as int);
    assert((w + r + tail).take((w.len() + r.len()) as int) =~= w + r);
    let t = trim(l);
    assert(t == w + r);
    assert(t[t.len() - 1] == r[r.len() - 1]);
    assert(t[t.len() - 2] == r[r.len() - 2]);
    assert(t[t.len() - 3] == r[r.len() - 3]);
    assert(is_digit(dec[dec.len() - 1]));
    lemma_settled_by_ending(l);
    // Neither `,$);` nor the new reference can be part of a `DATA;` or an
    // `ENDSEC;`, so both lines have these where their common start has them.
    let old_ref = line.subrange(i, i + 4);
    assert(line =~= head + old_ref + tail);
    assert(old_ref == omitted_suffix());
    lemma_markers();
    assert forall|k: int| 0 <= k < old_ref.len() implies old_ref[k] != 'D' && old_ref[k] != 'E' by {}
    lemma_marker_occurrences(head, old_ref, tail, data_marker());
    lemma_marker_occurrences(head, old_ref, tail, endsec_marker());
    lemma_marker_occurrences(head, r, tail, data_marker());
    lemma_marker_occurrences(head, r, tail, endsec_marker());
    assert(l.take(head.len() as int) =~= head);
    assert(line.take(head.len() as int) =~= head);
    lemma_same_sections(line, l, head);
}

/// The new `DIRECTION` line is one settled line ending in a line break.
proof fn lemma_direction_line_settled(id: nat, coordinates: Seq<char>)
    requires
        !coordinates.contains('\n'),
    ensures
        ({
            let d = direction_line(id, coordinates);
            &&& d.len() > 0
            &&& d.last() == '\n'
            &&& one_line(d)
            &&& settled_line(d)
        }),
{
    reveal_strlit("=DIRECTION('',(");
    reveal_strlit("));\n");
    lemma_decimal_digits(id);
    let dec = decimal(id);
    let d = direction_line(id, coordinates);
    let n = d.len() as int;
    let a = 1 + dec.len();
    let b = a + 15 + coordinates.len();
    assert(d[n - 1] == '\n');
    assert(d[n - 2] == ';');
    assert(d[n - 3] == ')');
    assert(d[n - 4] == ')');
    assert forall|j: int| 0 <= j < n - 1 implies d[j] != '\n' by {
        if 1 <= j < a {
            assert(d[j] == dec[j - 1]);
            assert(is_digit(dec[j - 1]));
        } else if b <= j {
        } else if a + 15 <= j {
            assert(d[j] == coordinates[j - a - 15]);
        }
    }
    assert(d[0] == '#');
    assert(trim_start(d) == d);
    lemma_trim_end_take(d, n - 1);
    let t = trim(d);
    assert(t =~= d.take(n - 1));
    lemma_settled_by_ending(d);
}

proof fn lemma_lookup_entry(axes: Seq<(u64, Option<Seq<char>>)>, id: u64, n: int)
    requires
        n <= axes.len(),
        axis_lookup_before(axes, id, n) matches Some(Some(_)),
    ensures
        exists|k: int|
            0 <= k < n && axes[k].1 == Some(axis_lookup_before(axes, id, n)->Some_0->Some_0),
    decreases n,
{
    if axes[n - 1].0 != id {
        lemma_lookup_entry(axes, id, n - 1);
    }
}

/// A line of a text is one line, ending in a line break unless it ends the text.
proof fn lemma_line_shape(s: Seq<char>, p: int)
    requires
        0 <= p < s.len(),
    ensures
        line_at(s, p).len() > 0,
        one_line(line_at(s, p)),
        line_end(s, p) < s.len() ==> line_at(s, p).last() == '\n',
{
    lemma_line_end_bounds(s, p);
    lemma_line_end_breaks(s, p);
    let l = line_at(s, p);
    assert forall|j: int| 0 <= j < l.len() - 1 implies l[j] != '\n' by {
        assert(l[j] == s[p + j]);
    }
}

proof fn lemma_rewrite_line_some(line: Seq<char>, axes: Seq<(u64, Option<Seq<char>>)>, id: nat)
    requires
        rewrite_line(line, axes, id) matches Ok(Some(_)),
    ensures
        is_omitted_placement(line),
        rewrite_line(line, axes, id)->Ok_0->Some_0.0 == replace_first(
            line,
            omitted_suffix(),
            reference_open() + decimal(id) + close_suffix(),
        ),
        exists|k: int|
            0 <= k < axes.len() && axes[k].1 is Some && rewrite_line(line, axes, id)->Ok_0->Some_0.1
                == direction_line(id, axes[k].1->Some_0),
{
    let t = trim(line);
    let body = entity(t)->Some_0.1;
    let inner = body.skip(placement_prefix().len() as int);
    let attrs = inner.take(inner.len() - close_suffix().len());
    let parts = split_char(attrs, ',');
    let axis = trim(parts[2]);
    let axis_id = parse_u64(axis.drop_first())->Some_0;
    lemma_lookup_entry(axes, axis_id, axes.len() as int);
}

/// Along the second pass over a text whose placements and `ENDSEC;`s are laid
/// out plainly, the rewritten text and the added lines are settled, and every
/// `ENDSEC;` of the rewritten text begins a line.
proof fn lemma_rewrite_settled(
    s: Seq<char>,
    p: int,
    axes: Seq<(u64, Option<Seq<char>>)>,
    base: nat,
    state: (Seq<char>, Seq<char>, nat),
)
    requires
        0 <= p,
        p >= s.len() || p == 0 || s[p - 1] == '\n',
        !scan_from(s, p).1,
        forall|q: int|
            0 <= q < s.len() && (q == 0 || s[q - 1] == '\n') && is_omitted_placement(
                #[trigger] line_at(s, q),
            ) ==> reference_ends_line(line_at(s, q)),
        p <= s.len(),
        forall|k: int| 0 <= k < axes.len() && axes[k].1 is Some ==> !axes[k].1->Some_0.contains('\n'),
        rewrite_from(s, p, axes, base, state) is Ok,
        settled_from(state.0, 0),
        data_section_state(state.0) == data_section_state(s.take(p)),
        p < s.len() ==> (state.0.len() == 0 || state.0.last() == '\n'),
        settled_from(state.1, 0),
        state.1.len() == 0 || state.1.last() == '\n',
    ensures
        ({
            let r = rewrite_from(s, p, axes, base, state)->Ok_0;
            &&& settled_from(r.0, 0)
            &&& data_section_state(r.0) == data_section_state(s)
            &&& settled_from(r.1, 0)
            &&& r.1.len() == 0 || r.1.last() == '\n'
        }),
    decreases s.len() - p,
{
    if p < s.len() {
        lemma_line_end_bounds(s, p);
        lemma_line_shape(s, p);
        lemma_line_end_breaks(s, p);
        let e = line_end(s, p);
        let line = line_at(s, p);
        let id = base + state.2 + 1;
        let done = s.take(p);
        assert(s.take(e) =~= done + line);
        if p > 0 {
            assert(done.last() == s[p - 1]);
        }
        lemma_data_section_concat(done, line);
        match rewrite_line(line, axes, id) {
            Err(_) => {},
            Ok(None) => {
                if is_omitted_placement(line) {
                    lemma_omitted_placement_rewritten(line, axes, id);
                }
                assert(settled_line(line));
                lemma_settled_single(line);
                lemma_settled_concat(state.0, line, 0);
                lemma_data_section_concat(state.0, line);
                lemma_rewrite_settled(s, e, axes, base, (state.0 + line, state.1, state.2));
            },
            Ok(Some((l, a))) => {
                lemma_rewrite_line_some(line, axes, id);
                let k = choose|k: int|
                    0 <= k < axes.len() && axes[k].1 is Some && a == direction_line(
                        id,
                        axes[k].1->Some_0,
                    );
                lemma_rewritten_line(line, id);
                lemma_settled_single(l);
                lemma_settled_concat(state.0, l, 0);
                lemma_data_section_concat(state.0, l);
                lemma_direction_line_settled(id, axes[k].1->Some_0);
                lemma_settled_single(a);
                lemma_settled_concat(state.1, a, 0);
                lemma_rewrite_settled(s, e, axes, base, (state.0 + l, state.1 + a, state.2 + 1));
            },
        }
    } else {
        assert(s.take(p) =~= s);
    }
}

/// A second pass over the normalized text finds nothing to fill and returns it
/// unchanged, provided the text is laid out as STEP files are: the `,$);` of
/// each placement to fill ends its line, the first `ENDSEC;` after the first
/// `DATA;` begins a line, and no reference direction's coordinates hold a line
/// break.
pub proof fn law_second_pass_fills_nothing(s: Seq<char>, axes: Seq<(u64, Option<Seq<char>>)>)
    requires
        normalized(s, axes) is Ok,
        forall|q: int|
            0 <= q < s.len() && (q == 0 || s[q - 1] == '\n') && is_omitted_placement(
                #[trigger] line_at(s, q),
            ) ==> reference_ends_line(line_at(s, q)),
        data_endsec_begins_line(s),
        forall|k: int| 0 <= k < axes.len() && axes[k].1 is Some ==> !axes[k].1->Some_0.contains('\n'),
    ensures
        normalized(normalized(s, axes)->Ok_0.0, axes) == Ok::<(Seq<char>, nat), StepError>(
            (normalized(s, axes)->Ok_0.0, 0),
        ),
{
    let start = (Seq::<char>::empty(), Seq::<char>::empty(), 0nat);
    let base = max_entity_id(s) as nat;
    assert(settled_from(Seq::<char>::empty(), 0));
    assert(s.take(0) =~= Seq::<char>::empty());
    lemma_rewrite_settled(s, 0, axes, base, start);
    lemma_data_endsec_state(s);
    let r = rewrite_from(s, 0, axes, base, start)->Ok_0;
    let rep = r.0;
    let added = r.1;
    if r.2 != 0 {
        let d = find(rep, data_marker())->0;
        let k = find(rep.skip(d), endsec_marker())->0;
        lemma_find_occurs(rep, data_marker());
        lemma_find_occurs(rep.skip(d), endsec_marker());
        let m = d + k;
        assert(rep.subrange(m, m + endsec_marker().len()) =~= rep.skip(d).subrange(
            k,
            k + endsec_marker().len(),
        ));
        lemma_find_from_skip(rep, endsec_marker(), d, 0);
        assert(find_from(rep, endsec_marker(), d) == Some(m));
        assert(begins_line(rep, m));
        let a = rep.take(m);
        let b = rep.skip(m);
        assert(rep =~= a + b);
        if m > 0 {
            assert(a.last() == rep[m - 1]);
        }
        lemma_settled_concat(a, b, 0);
        lemma_settled_concat(added, b, 0);
        lemma_settled_concat(a, added + b, 0);
        let t = normalized(s, axes)->Ok_0.0;
        assert(t =~= a + (added + b));
        lemma_settled_passes(t, 0);
        law_nothing_to_fill_is_identity(t, axes);
    }
}

/// When references are filled, the new `DIRECTION` lines go inside the data
/// section: just before the first `ENDSEC;` that follows the first `DATA;` of
/// the rewritten text, and the text around them is the rewritten text.
pub proof fn law_new_directions_close_the_data_section(
    s: Seq<char>,
    axes: Seq<(u64, Option<Seq<char>>)>,
)
    requires
        normalized(s, axes) is Ok,
        normalized(s, axes)->Ok_0.1 > 0,
    ensures
        ({
            let start = (Seq::<char>::empty(), Seq::<char>::empty(), 0nat);
            let r = rewrite_from(s, 0, axes, max_entity_id(s) as nat, start)->Ok_0;
            let rep = r.0;
            let added = r.1;
            let t = normalized(s, axes)->Ok_0.0;
            exists|d: int, m: int|
                #![trigger occurs_at(rep, data_marker(), d), occurs_at(rep, endsec_marker(), m)]
                {
                    &&& occurs_at(rep, data_marker(), d)
                    &&& forall|j: int| 0 <= j < d ==> !occurs_at(rep, data_marker(), j)
                    &&& d <= m
                    &&& occurs_at(rep, endsec_marker(), m)
                    &&& forall|j: int| d <= j < m ==> !occurs_at(rep, endsec_marker(), j)
                    &&& t == rep.take(m) + added + rep.skip(m)
                }
        }),
{
    let start = (Seq::<char>::empty(), Seq::<char>::empty(), 0nat);
    let r = rewrite_from(s, 0, axes, max_entity_id(s) as nat, start)->Ok_0;
    let rep = r.0;
    assert(!direction_scan(s).1);
    assert(r.2 != 0);
    let dm = data_marker();
    let em = endsec_marker();
    let d = find(rep, dm)->0;
    lemma_find_in_bounds(rep, dm, 0);
    lemma_find_from_first(rep, dm, 0);
    let k = find(rep.skip(d), em)->0;
    lemma_find_from_skip(rep, em, d, 0);
    let m = d + k;
    assert(find_from(rep, em, d) == Some(m));
    lemma_find_in_bounds(rep, em, d);
    lemma_find_from_first(rep, em, d);
}

} // verus!
