//! Pipeline stage identifiers, length units and small command-line helpers.

use vstd::prelude::*;

verus! {

/// Stage identifier as (major, minor). Minor = 0 means "all sub-stages of that major stage".
/// Examples: (1, 2) = stage 1.2, (2, 0) = all of stage 2, (4, 1) = full pipeline.
#[derive(Debug, Clone, Copy, PartialEq, Eq, Structural)]
pub struct Stage(pub u8, pub u8);

/// The final sub-stage of each major stage (0 for an unknown major stage).
pub open spec fn spec_last_minor(major: u8) -> u8 {
    if major == 1 {
        3
    } else if major == 2 {
        6
    } else if major == 3 {
        6
    } else if major == 4 {
        1
    } else {
        0
    }
}

/// Lexicographic `>=` on (major, minor) pairs.
pub open spec fn pair_ge(a: (u8, u8), b: (u8, u8)) -> bool {
    a.0 > b.0 || (a.0 == b.0 && a.1 >= b.1)
}

impl Stage {
    /// A minor stage of 0 stands for the last sub-stage of its major stage.
    pub open spec fn spec_normalized(self) -> (u8, u8) {
        if self.1 == 0 {
            (self.0, spec_last_minor(self.0))
        } else {
            (self.0, self.1)
        }
    }

    pub open spec fn spec_at_least(self, major: u8, minor: u8) -> bool {
        pair_ge(self.spec_normalized(), (major, minor))
    }

    /// The final sub-stage for each major stage.
    pub fn last_minor(major: u8) -> (r: u8)
        ensures
            r == spec_last_minor(major),
    {
        match major {
            1 => 3,
            2 => 6,
            3 => 6,
            4 => 1,
            _ => 0,
        }
    }

    /// Normalize: if minor is 0, expand to the last sub-stage of that major stage.
    pub fn normalized(self) -> (r: (u8, u8))
        ensures
            r == self.spec_normalized(),
    {
        if self.1 == 0 {
            (self.0, Self::last_minor(self.0))
        } else {
            (self.0, self.1)
        }
    }

    /// Returns true if the pipeline should run at least through the given stage.
    pub fn at_least(&self, major: u8, minor: u8) -> (r: bool)
        ensures
            r == self.spec_at_least(major, minor),
    {
        let (sm, ss) = self.normalized();
        sm > major || (sm == major && ss >= minor)
    }
}

impl Default for Stage {
    /// The full pipeline, stage 4.1.
    fn default() -> (r: Self)
        ensures
            r == Stage(4, 1),
    {
        Stage(4, 1)
    }
}

/// Normalizing twice gives the same pair as normalizing once.
pub proof fn lemma_normalized_idempotent(s: Stage)
    ensures
        Stage(s.spec_normalized().0, s.spec_normalized().1).spec_normalized() == s.spec_normalized(),
{
}

/// Every stage has reached its own (normalized) position.
pub proof fn lemma_at_least_reflexive(s: Stage)
    ensures
        s.spec_at_least(s.spec_normalized().0, s.spec_normalized().1),
{
}

/// Reaching a stage implies reaching every earlier stage.
pub proof fn lemma_at_least_monotone(s: Stage, a: (u8, u8), b: (u8, u8))
    requires
        s.spec_at_least(a.0, a.1),
        pair_ge(a, b),
    ensures
        s.spec_at_least(b.0, b.1),
{
}

/// For any two target stages, a run reaches the later one only if it reaches the earlier one,
/// and of any two stages one is at least the other.
pub proof fn lemma_at_least_total(s: Stage, t: Stage)
    ensures
        s.spec_at_least(t.spec_normalized().0, t.spec_normalized().1) || t.spec_at_least(
            s.spec_normalized().0,
            s.spec_normalized().1,
        ),
{
}

/// `Stage(m, 0)` ("all of stage m") behaves exactly as `Stage(m, last sub-stage of m)`.
pub proof fn lemma_zero_minor_is_last(m: u8, major: u8, minor: u8)
    ensures
        Stage(m, 0).spec_at_least(major, minor) == Stage(m, spec_last_minor(m)).spec_at_least(
            major,
            minor,
        ),
{
}

/// Length units for STL/STEP files.
#[derive(Debug, Clone, Copy, PartialEq, Eq, Structural)]
pub enum Units {
    /// Millimeters
    Mm,
    /// Centimeters
    Cm,
    /// Meters
    M,
    /// Inches
    In,
    /// Feet
    Ft,
    /// Micrometers
    Um,
}

impl Default for Units {
    fn default() -> (r: Self)
        ensures
            r == Units::Mm,
    {
        Units::Mm
    }
}

/// The display name of a unit.
pub open spec fn spec_unit_name(u: Units) -> Seq<char> {
    match u {
        Units::Mm => "mm"@,
        Units::Cm => "cm"@,
        Units::M => "m"@,
        Units::In => "in"@,
        Units::Ft => "ft"@,
        Units::Um => "μm"@,
    }
}

impl Units {
    /// The display name of this unit ("mm", "cm", "m", "in", "ft", "μm").
    pub fn name(&self) -> (r: String)
        ensures
            r@ == spec_unit_name(*self),
    {
        match self {
            Units::Mm => String::from_str("mm"),
            Units::Cm => String::from_str("cm"),
            Units::M => String::from_str("m"),
            Units::In => String::from_str("in"),
            Units::Ft => String::from_str("ft"),
            Units::Um => String::from_str("μm"),
        }
    }
}

/// The effective verbosity: the larger of an explicit `--verbose=LEVEL` (absent counts as 0)
/// and the number of `-v` flags.
pub open spec fn spec_verbosity(level: Option<u8>, short_count: u8) -> u8 {
    let l: u8 = match level {
        Some(v) => v,
        None => 0,
    };
    if l >= short_count {
        l
    } else {
        short_count
    }
}

/// Resolve the verbosity level from the two command-line forms.
pub fn resolve_verbosity(level: Option<u8>, short_count: u8) -> (r: u8)
    ensures
        r == spec_verbosity(level, short_count),
{
    let l: u8 = match level {
        Some(v) => v,
        None => 0,
    };
    if l >= short_count {
        l
    } else {
        short_count
    }
}

/// Whether some stage of the list normalizes to exactly (major, minor).
pub open spec fn spec_viz_active(viz_stages: Seq<Stage>, major: u8, minor: u8) -> bool {
    exists|i: int| 0 <= i < viz_stages.len() && #[trigger] viz_stages[i].spec_normalized() == (major, minor)
}

/// Check if a specific stage should be visualized: some listed stage normalizes to it.
pub fn viz_active(viz_stages: &Vec<Stage>, major: u8, minor: u8) -> (r: bool)
    ensures
        r == spec_viz_active(viz_stages@, major, minor),
{
    let mut i: usize = 0;
    while i < viz_stages.len()
        invariant
            i <= viz_stages.len(),
            forall|j: int| 0 <= j < i ==> #[trigger] viz_stages@[j].spec_normalized() != (major, minor),
        decreases viz_stages.len() - i,
    {
        let (sm, ss) = viz_stages[i].normalized();
        if sm == major && ss == minor {
            return true;
        }
        i += 1;
    }
    false
}

/// A decimal digit.
pub open spec fn is_digit(c: char) -> bool {
    '0' <= c && c <= '9'
}

/// The value of a string of decimal digits.
pub open spec fn digits_value(s: Seq<char>) -> nat
    decreases s.len(),
{
    if s.len() == 0 {
        0
    } else {
        digits_value(s.drop_last()) * 10 + ((s.last() as int) - ('0' as int)) as nat
    }
}

/// The text without one leading `+`.
pub open spec fn sign_stripped(s: Seq<char>) -> Seq<char> {
    if s.len() > 0 && s[0] == '+' {
        s.drop_first()
    } else {
        s
    }
}

/// How `u8` parses from text: an optional `+`, then one or more decimal digits whose value
/// is at most 255.
pub open spec fn spec_parse_u8(s: Seq<char>) -> Option<u8> {
    let d = sign_stripped(s);
    if d.len() > 0 && (forall|i: int| 0 <= i < d.len() ==> is_digit(#[trigger] d[i])) && digits_value(d) <= 255 {
        Some(digits_value(d) as u8)
    } else {
        None
    }
}

/// Index of the first `.` in `s`, if any.
pub open spec fn first_dot(s: Seq<char>) -> Option<int> {
    if exists|i: int| 0 <= i < s.len() && s[i] == '.' {
        Some(choose|i: int| 0 <= i < s.len() && s[i] == '.' && forall|j: int| 0 <= j < i ==> s[j] != '.')
    } else {
        None
    }
}

/// The error text for an unparsable stage.
pub open spec fn invalid_stage_text(s: Seq<char>, suffix: Seq<char>) -> Seq<char> {
    "invalid stage: "@ + s + suffix
}

/// How a stage parses from text: "M.m" with 1 <= M <= 4 and 1 <= m <= last sub-stage of M,
/// or "M" with 1 <= M <= 4 (all of stage M).
pub open spec fn spec_parse_stage(s: Seq<char>) -> Result<Stage, Seq<char>> {
    match first_dot(s) {
        Some(i) => match (spec_parse_u8(s.take(i)), spec_parse_u8(s.skip(i + 1))) {
            (Some(major), Some(minor)) => {
                if 1 <= major <= 4 && 1 <= minor <= spec_last_minor(major) {
                    Ok(Stage(major, minor))
                } else {
                    Err(invalid_stage_text(s, " (valid: 1.1–4.1)"@))
                }
            },
            _ => Err(invalid_stage_text(s, Seq::empty())),
        },
        None => match spec_parse_u8(s) {
            Some(major) => {
                if 1 <= major <= 4 {
                    Ok(Stage(major, 0))
                } else {
                    Err(invalid_stage_text(s, " (valid: 1–4)"@))
                }
            },
            None => Err(invalid_stage_text(s, Seq::empty())),
        },
    }
}

proof fn lemma_digits_value_take_mono(d: Seq<char>, i: int, j: int)
    requires
        0 <= i <= j <= d.len(),
        forall|k: int| 0 <= k < d.len() ==> is_digit(#[trigger] d[k]),
    ensures
        digits_value(d.take(i)) <= digits_value(d.take(j)),
    decreases j - i,
{
    if i < j {
        lemma_digits_value_take_mono(d, i, j - 1);
        assert(d.take(j).drop_last() == d.take(j - 1));
        assert(is_digit(d[j - 1]));
        assert(d.take(j).last() == d[j - 1]);
    }
}

/// Parse the characters `s[from..to]` the way `u8` parses from text.
fn parse_u8_range(s: &str, from: usize, to: usize) -> (r: Option<u8>)
    requires
        from <= to <= s@.len(),
    ensures
        r == spec_parse_u8(s@.subrange(from as int, to as int)),
{
    let ghost t = s@.subrange(from as int, to as int);
    let mut start = from;
    if from < to && s.get_char(from) == '+' {
        start = from + 1;
    }
    let ghost d = s@.subrange(start as int, to as int);
    let ghost dd = sign_stripped(t);
    proof {
        if from < to {
            assert(t[0] == s@[from as int]);
        }
        assert(d == dd);
    }
    if start == to {
        return None;
    }
    let mut acc: u32 = 0;
    let mut i = start;
    while i < to
        invariant
            start <= i <= to,
            to <= s@.len(),
            d == s@.subrange(start as int, to as int),
            t == s@.subrange(from as int, to as int),
            dd == sign_stripped(t),
            d == dd,
            d.len() > 0,
            acc as nat == digits_value(d.take(i - start)),
            acc <= 255,
            forall|k: int| 0 <= k < i - start ==> is_digit(#[trigger] d[k]),
        decreases to - i,
    {
        let c = s.get_char(i);
        if !('0' <= c && c <= '9') {
            proof {
                assert(d[i - start] == c);
                assert(!is_digit(d[i - start]));
                assert(!(forall|q: int| 0 <= q < d.len() ==> is_digit(#[trigger] d[q])));
                assert(spec_parse_u8(t) is None);
            }
            return None;
        }
        let digit = (c as u32) - ('0' as u32);
        let ghost k = i - start;
        proof {
            assert(d.take(k + 1).drop_last() == d.take(k));
            assert(d.take(k + 1).last() == c);
        }
        acc = acc * 10 + digit;
        i += 1;
        if acc > 255 {
            proof {
                if forall|q: int| 0 <= q < d.len() ==> is_digit(#[trigger] d[q]) {
                    lemma_digits_value_take_mono(d, k + 1, d.len() as int);
                    assert(d.take(d.len() as int) == d);
                    assert(digits_value(d) > 255);
                }
                assert(spec_parse_u8(t) is None);
            }
            return None;
        }
    }
    proof {
        assert(d.take(d.len() as int) == d);
    }
    Some(acc as u8)
}

/// The stage-parsing error text: "invalid stage: " followed by the input and a suffix.
fn invalid_stage(s: &str, suffix: &str) -> (r: String)
    ensures
        r@ == invalid_stage_text(s@, suffix@),
{
    let mut msg = String::from_str("invalid stage: ");
    msg.append(s);
    msg.append(suffix);
    msg
}

/// Index of the first `.` of `s` (of length `n`), or `n` when there is none.
fn find_dot(s: &str, n: usize) -> (r: usize)
    requires
        n == s@.len(),
    ensures
        r <= n,
        r < n ==> s@[r as int] == '.',
        forall|j: int| 0 <= j < r ==> s@[j] != '.',
{
    let mut i: usize = 0;
    while i < n
        invariant
            n == s@.len(),
            i <= n,
            forall|j: int| 0 <= j < i ==> s@[j] != '.',
        decreases n - i,
    {
        if s.get_char(i) == '.' {
            return i;
        }
        i += 1;
    }
    n
}

/// Parse a stage: "M.m" (a sub-stage) or "M" (all of stage M).
pub fn parse_stage(s: &str) -> (r: Result<Stage, String>)
    ensures
        match (r, spec_parse_stage(s@)) {
            (Ok(a), Ok(b)) => a == b,
            (Err(e), Err(t)) => e@ == t,
            _ => false,
        },
{
    let n = s.unicode_len();
    let dot = find_dot(s, n);
    if dot < n {
        proof {
            assert(s@[dot as int] == '.');
            assert(first_dot(s@) == Some(dot as int)) by {
                let w = choose|i: int| 0 <= i < s@.len() && s@[i] == '.' && forall|j: int| 0 <= j < i ==> s@[j] != '.';
                if w < dot {
                    assert(s@[w] != '.');
                }
                if w > dot {
                    assert(s@[dot as int] != '.');
                }
            }
            assert(s@.take(dot as int) == s@.subrange(0, dot as int));
            assert(s@.skip(dot + 1) == s@.subrange(dot + 1, n as int));
        }
        let major = parse_u8_range(s, 0, dot);
        let minor = parse_u8_range(s, dot + 1, n);
        match (major, minor) {
            (Some(ma), Some(mi)) => {
                if 1 <= ma && ma <= 4 && 1 <= mi && mi <= Stage::last_minor(ma) {
                    Ok(Stage(ma, mi))
                } else {
                    Err(invalid_stage(s, " (valid: 1.1–4.1)"))
                }
            },
            _ => {
                proof {
                    reveal_strlit("");
                }
                Err(invalid_stage(s, ""))
            },
        }
    } else {
        proof {
            assert(!exists|i: int| 0 <= i < s@.len() && s@[i] == '.');
            assert(first_dot(s@) is None);
            assert(s@.subrange(0, n as int) == s@);
        }
        let major = parse_u8_range(s, 0, n);
        match major {
            Some(ma) => {
                if 1 <= ma && ma <= 4 {
                    Ok(Stage(ma, 0))
                } else {
                    Err(invalid_stage(s, " (valid: 1–4)"))
                }
            },
            None => {
                proof {
                    reveal_strlit("");
                }
                Err(invalid_stage(s, ""))
            },
        }
    }
}

} // verus!
