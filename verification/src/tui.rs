//! The interactive surface's data types and decision logic: the add-task
//! form, its validation and parsing into a job, and the list-selection
//! arithmetic. Rendering, key handling, and the terminal itself live with
//! the embedding program; everything it decides with is proved here.

use vstd::prelude::*;
use crate::job::{Job, Status};
use crate::numfmt::{
    all_digits, digits_val, is_digit_char, pow10, char_to_digit,
    lemma_pow10_mono, lemma_pow10_num_width, lemma_digits_val_leading_zeros,
};
use crate::text::{chars_of_str, string_from_range};

verus! {

/// Whether the interface is browsing the job list or filling the add-task
/// form.
#[derive(Clone, Copy, Debug, PartialEq, Eq, Structural)]
pub enum InputMode {
    Normal,
    AddTask,
}

impl Default for InputMode {
    fn default() -> (r: Self)
        ensures
            r == InputMode::Normal,
    {
        InputMode::Normal
    }
}

/// Which form field is being edited.
#[derive(Clone, Copy, Debug, PartialEq, Eq, Structural)]
pub enum InputField {
    Time,
    Priority,
    Description,
    Function,
}

impl Default for InputField {
    fn default() -> (r: Self)
        ensures
            r == InputField::Time,
    {
        InputField::Time
    }
}

/// Temporary state for the add-task form (one set per submission).
pub struct AddTaskForm {
    pub time: String,
    pub priority: String,
    pub description: String,
    pub function: String,
}

impl Default for AddTaskForm {
    fn default() -> (r: Self)
        ensures
            r.time@ == Seq::<char>::empty(),
            r.priority@ == Seq::<char>::empty(),
            r.description@ == Seq::<char>::empty(),
            r.function@ == Seq::<char>::empty(),
    {
        AddTaskForm {
            time: String::new(),
            priority: String::new(),
            description: String::new(),
            function: String::new(),
        }
    }
}

/// Why a form submission was rejected.
#[derive(Clone, Copy, Debug, PartialEq, Eq, Structural)]
pub enum FormError {
    MissingField,
    InvalidTime,
    InvalidPriority,
    PastDue,
}

/// The whitespace the form trims from its fields.
pub open spec fn is_space_char(c: char) -> bool {
    c == ' ' || c == '\t' || c == '\n' || c == '\r'
}

/// How many whitespace characters lead `cs`.
pub open spec fn leading_spaces(cs: Seq<char>) -> int
    decreases cs.len(),
{
    if cs.len() > 0 && is_space_char(cs[0]) {
        1 + leading_spaces(cs.drop_first())
    } else {
        0
    }
}

/// How many whitespace characters end `cs`.
pub open spec fn trailing_spaces(cs: Seq<char>) -> int
    decreases cs.len(),
{
    if cs.len() > 0 && is_space_char(cs.last()) {
        1 + trailing_spaces(cs.drop_last())
    } else {
        0
    }
}

/// How many `'+'` characters lead `cs`.
pub open spec fn leading_plus(cs: Seq<char>) -> int
    decreases cs.len(),
{
    if cs.len() > 0 && cs[0] == '+' {
        1 + leading_plus(cs.drop_first())
    } else {
        0
    }
}

/// `cs` without its leading and trailing whitespace.
pub open spec fn spec_trim(cs: Seq<char>) -> Seq<char> {
    let t = cs.skip(leading_spaces(cs));
    t.take(t.len() - trailing_spaces(t))
}

pub proof fn lemma_leading_spaces_props(cs: Seq<char>)
    ensures
        0 <= leading_spaces(cs) <= cs.len(),
        forall|k: int| 0 <= k < leading_spaces(cs) ==> is_space_char(#[trigger] cs[k]),
        leading_spaces(cs) < cs.len() ==> !is_space_char(cs[leading_spaces(cs)]),
    decreases cs.len(),
{
    if cs.len() > 0 && is_space_char(cs[0]) {
        lemma_leading_spaces_props(cs.drop_first());
        assert forall|k: int| 0 <= k < leading_spaces(cs) implies
            is_space_char(#[trigger] cs[k]) by {
            if k > 0 {
                assert(cs[k] == cs.drop_first()[k - 1]);
            }
        }
        if leading_spaces(cs) < cs.len() {
            assert(cs[leading_spaces(cs)]
                == cs.drop_first()[leading_spaces(cs.drop_first())]);
        }
    }
}

pub proof fn lemma_leading_spaces_unique(cs: Seq<char>, a: int)
    requires
        0 <= a <= cs.len(),
        forall|k: int| 0 <= k < a ==> is_space_char(#[trigger] cs[k]),
        a == cs.len() || !is_space_char(cs[a]),
    ensures
        a == leading_spaces(cs),
{
    lemma_leading_spaces_props(cs);
    if a < leading_spaces(cs) {
        assert(is_space_char(cs[a]));
        assert(false);
    }
    if a > leading_spaces(cs) {
        assert(is_space_char(cs[leading_spaces(cs)]));
        assert(false);
    }
}

pub proof fn lemma_trailing_spaces_props(cs: Seq<char>)
    ensures
        0 <= trailing_spaces(cs) <= cs.len(),
        forall|k: int| cs.len() - trailing_spaces(cs) <= k < cs.len()
            ==> is_space_char(#[trigger] cs[k]),
        trailing_spaces(cs) < cs.len()
            ==> !is_space_char(cs[cs.len() - trailing_spaces(cs) - 1]),
    decreases cs.len(),
{
    if cs.len() > 0 && is_space_char(cs.last()) {
        lemma_trailing_spaces_props(cs.drop_last());
        assert forall|k: int| cs.len() - trailing_spaces(cs) <= k < cs.len() implies
            is_space_char(#[trigger] cs[k]) by {
            if k < cs.len() - 1 {
                assert(cs[k] == cs.drop_last()[k]);
            }
        }
        if trailing_spaces(cs) < cs.len() {
            let d = cs.drop_last();
            assert(cs[cs.len() - trailing_spaces(cs) - 1]
                == d[d.len() - trailing_spaces(d) - 1]);
        }
    }
}

pub proof fn lemma_trailing_spaces_unique(cs: Seq<char>, t: int)
    requires
        0 <= t <= cs.len(),
        forall|k: int| cs.len() - t <= k < cs.len() ==> is_space_char(#[trigger] cs[k]),
        t == cs.len() || !is_space_char(cs[cs.len() - t - 1]),
    ensures
        t == trailing_spaces(cs),
{
    lemma_trailing_spaces_props(cs);
    if t < trailing_spaces(cs) {
        assert(is_space_char(cs[cs.len() - t - 1]));
        assert(false);
    }
    if t > trailing_spaces(cs) {
        assert(is_space_char(cs[cs.len() - trailing_spaces(cs) - 1]));
        assert(false);
    }
}

pub proof fn lemma_leading_plus_props(cs: Seq<char>)
    ensures
        0 <= leading_plus(cs) <= cs.len(),
        forall|k: int| 0 <= k < leading_plus(cs) ==> #[trigger] cs[k] == '+',
        leading_plus(cs) < cs.len() ==> cs[leading_plus(cs)] != '+',
    decreases cs.len(),
{
    if cs.len() > 0 && cs[0] == '+' {
        lemma_leading_plus_props(cs.drop_first());
        assert forall|k: int| 0 <= k < leading_plus(cs) implies #[trigger] cs[k] == '+' by {
            if k > 0 {
                assert(cs[k] == cs.drop_first()[k - 1]);
            }
        }
        if leading_plus(cs) < cs.len() {
            assert(cs[leading_plus(cs)] == cs.drop_first()[leading_plus(cs.drop_first())]);
        }
    }
}

pub proof fn lemma_leading_plus_unique(cs: Seq<char>, a: int)
    requires
        0 <= a <= cs.len(),
        forall|k: int| 0 <= k < a ==> #[trigger] cs[k] == '+',
        a == cs.len() || cs[a] != '+',
    ensures
        a == leading_plus(cs),
{
    lemma_leading_plus_props(cs);
    if a < leading_plus(cs) {
        assert(cs[a] == '+');
        assert(false);
    }
    if a > leading_plus(cs) {
        assert(cs[leading_plus(cs)] == '+');
        assert(false);
    }
}

/// How many `'0'` characters lead `cs`.
pub open spec fn leading_zeros(cs: Seq<char>) -> int
    decreases cs.len(),
{
    if cs.len() > 0 && cs[0] == '0' {
        1 + leading_zeros(cs.drop_first())
    } else {
        0
    }
}

pub proof fn lemma_leading_zeros_props(cs: Seq<char>)
    ensures
        0 <= leading_zeros(cs) <= cs.len(),
        forall|k: int| 0 <= k < leading_zeros(cs) ==> #[trigger] cs[k] == '0',
        leading_zeros(cs) < cs.len() ==> cs[leading_zeros(cs)] != '0',
    decreases cs.len(),
{
    if cs.len() > 0 && cs[0] == '0' {
        lemma_leading_zeros_props(cs.drop_first());
        assert forall|k: int| 0 <= k < leading_zeros(cs) implies #[trigger] cs[k] == '0' by {
            if k > 0 {
                assert(cs[k] == cs.drop_first()[k - 1]);
            }
        }
        if leading_zeros(cs) < cs.len() {
            assert(cs[leading_zeros(cs)] == cs.drop_first()[leading_zeros(cs.drop_first())]);
        }
    }
}

pub proof fn lemma_leading_zeros_unique(cs: Seq<char>, a: int)
    requires
        0 <= a <= cs.len(),
        forall|k: int| 0 <= k < a ==> #[trigger] cs[k] == '0',
        a == cs.len() || cs[a] != '0',
    ensures
        a == leading_zeros(cs),
{
    lemma_leading_zeros_props(cs);
    if a < leading_zeros(cs) {
        assert(cs[a] == '0');
        assert(false);
    }
    if a > leading_zeros(cs) {
        assert(cs[leading_zeros(cs)] == '0');
        assert(false);
    }
}

/// The value of a bare run of decimal digits, of any written length: after
/// skipping leading zeros at most 19 digits may remain, which hold every
/// value these parsers must accept and never overflow 64 bits.
pub open spec fn digit_run_val(cs: Seq<char>) -> Option<nat> {
    if cs.len() >= 1 && all_digits(cs) && cs.len() - leading_zeros(cs) <= 19 {
        Some(digits_val(cs))
    } else {
        None
    }
}

/// A signed decimal the time field accepts: any run of leading `'+'`
/// characters, then an optional `'-'`, then a digit run denoting a value in
/// 64-bit signed range.
pub open spec fn spec_parse_i64(cs: Seq<char>) -> Option<i64> {
    let stripped = cs.skip(leading_plus(cs));
    if stripped.len() > 0 && stripped[0] == '-' {
        match digit_run_val(stripped.drop_first()) {
            None => None,
            Some(v) => if v <= 0x8000_0000_0000_0000 {
                Some((-(v as int)) as i64)
            } else {
                None
            },
        }
    } else {
        match digit_run_val(stripped) {
            None => None,
            Some(v) => if v <= i64::MAX { Some(v as i64) } else { None },
        }
    }
}

/// An unsigned decimal the priority field accepts: an optional single `'+'`,
/// then a digit run denoting a value up to 255.
pub open spec fn spec_parse_u8(cs: Seq<char>) -> Option<u8> {
    let stripped = if cs.len() > 0 && cs[0] == '+' {
        cs.drop_first()
    } else {
        cs
    };
    match digit_run_val(stripped) {
        None => None,
        Some(v) => if v <= u8::MAX { Some(v as u8) } else { None },
    }
}

/// What submitting the form decides, before a job is built from it: the due
/// time and priority, or the first reason for rejection. A time below one
/// billion counts as seconds from `now`; anything larger is an absolute Unix
/// timestamp. A due time before `now` is rejected, as job construction
/// would reject it.
pub open spec fn spec_form_outcome(
    time: Seq<char>, priority: Seq<char>,
    description: Seq<char>, function: Seq<char>,
    now: i64,
) -> Result<(i64, u8), FormError> {
    if spec_trim(time).len() == 0 || spec_trim(priority).len() == 0
        || spec_trim(description).len() == 0 || spec_trim(function).len() == 0 {
        Err(FormError::MissingField)
    } else {
        match spec_parse_i64(spec_trim(time)) {
            None => Err(FormError::InvalidTime),
            Some(v) => {
                let et = if v < 1_000_000_000 { now + v } else { v as int };
                if et > i64::MAX || et < i64::MIN {
                    Err(FormError::InvalidTime)
                } else {
                    match spec_parse_u8(spec_trim(priority)) {
                        None => Err(FormError::InvalidPriority),
                        Some(p) => if et < now {
                            Err(FormError::PastDue)
                        } else {
                            Ok((et as i64, p))
                        },
                    }
                }
            },
        }
    }
}

/// The bounds of `v` without its leading and trailing whitespace.
#[verifier::loop_isolation(false)]
fn trim_bounds(v: &Vec<char>) -> (r: (usize, usize))
    ensures
        ({
            let (a, b) = r;
            0 <= a <= b <= v@.len()
            && v@.subrange(a as int, b as int) == spec_trim(v@)
        }),
{
    let len: usize = v.len();
    let mut a: usize = 0;
    while a < len && (v[a] == ' ' || v[a] == '\t' || v[a] == '\n' || v[a] == '\r')
        invariant
            0 <= a <= len,
            len == v@.len(),
            forall|k: int| 0 <= k < a ==> is_space_char(#[trigger] v@[k]),
        decreases len - a,
    {
        a += 1;
    }
    proof {
        lemma_leading_spaces_unique(v@, a as int);
    }
    let mut b: usize = len;
    while b > a && (v[b - 1] == ' ' || v[b - 1] == '\t' || v[b - 1] == '\n' || v[b - 1] == '\r')
        invariant
            a <= b <= len,
            len == v@.len(),
            forall|k: int| b <= k < len ==> is_space_char(#[trigger] v@[k]),
        decreases b,
    {
        b -= 1;
    }
    proof {
        let t = v@.skip(a as int);
        assert forall|k: int| t.len() - (len - b) <= k < t.len() implies
            is_space_char(#[trigger] t[k]) by {
            assert(t[k] == v@[a + k]);
        }
        if b > a {
            assert(t[t.len() - (len - b) - 1] == v@[b - 1]);
        }
        lemma_trailing_spaces_unique(t, len - b);
        assert(v@.subrange(a as int, b as int)
            =~= t.take(t.len() - trailing_spaces(t)));
    }
    (a, b)
}

/// The value of the digit run filling `v[start..end]`, if it is one;
/// leading zeros are skipped before the length of the significant part is
/// checked.
#[verifier::loop_isolation(false)]
fn parse_digit_run(v: &Vec<char>, start: usize, end: usize) -> (r: Option<u64>)
    requires
        start <= end <= v@.len(),
    ensures
        r is Some <==> digit_run_val(v@.subrange(start as int, end as int)) is Some,
        r matches Some(n) ==> digit_run_val(v@.subrange(start as int, end as int))
            == Some(n as nat),
{
    let ghost cs = v@.subrange(start as int, end as int);
    if end - start < 1 {
        return None;
    }
    let mut z: usize = start;
    while z < end && v[z] == '0'
        invariant
            start <= z <= end,
            end <= v@.len(),
            forall|k: int| start <= k < z ==> #[trigger] v@[k] == '0',
        decreases end - z,
    {
        z += 1;
    }
    proof {
        assert forall|k: int| 0 <= k < z - start implies #[trigger] cs[k] == '0' by {
            assert(cs[k] == v@[start + k]);
        }
        if z < end {
            assert(cs[z - start] == v@[z as int]);
        }
        lemma_leading_zeros_unique(cs, z as int - start);
    }
    let m: usize = end - z;
    if m > 19 {
        return None;
    }
    let mut acc: u64 = 0;
    let mut j: usize = 0;
    while j < m
        invariant
            0 <= j <= m,
            m == end - z,
            start <= z <= end <= v@.len(),
            m <= 19,
            all_digits(v@.subrange(z as int, z as int + j as int)),
            acc == digits_val(v@.subrange(z as int, z as int + j as int)),
            acc < pow10(j as nat),
        decreases m - j,
    {
        let ghost pre = v@.subrange(z as int, z as int + j as int);
        let c = v[z + j];
        let d: u8 = match char_to_digit(c) {
            Some(d) => d,
            None => {
                proof {
                    assert(cs[z - start + j] == c);
                }
                return None;
            },
        };
        proof {
            lemma_pow10_num_width();
            lemma_pow10_mono((j + 1) as nat, 19);
            assert(acc * 10 + d < pow10((j + 1) as nat));
        }
        acc = acc * 10 + (d as u64);
        j += 1;
        proof {
            let cur = v@.subrange(z as int, z as int + j as int);
            assert(cur.drop_last() =~= pre);
            assert(cur.last() == c);
            assert(acc == digits_val(cur));
            assert forall|k: int| 0 <= k < cur.len() implies
                is_digit_char(#[trigger] cur[k]) by {
                if k < cur.len() - 1 {
                    assert(cur[k] == pre[k]);
                }
            }
        }
    }
    proof {
        lemma_digits_val_leading_zeros(cs, z as int - start);
        assert(cs.skip(z as int - start) =~= v@.subrange(z as int, end as int));
        assert forall|k: int| 0 <= k < cs.len() implies
            is_digit_char(#[trigger] cs[k]) by {
            if k < z - start {
                assert(cs[k] == '0');
            } else {
                assert(cs[k] == v@.subrange(z as int, end as int)[k - (z - start)]);
            }
        }
    }
    Some(acc)
}

/// Parse `v[start..end]` the way the time field is read.
#[verifier::loop_isolation(false)]
fn parse_i64_range(v: &Vec<char>, start: usize, end: usize) -> (r: Option<i64>)
    requires
        start <= end <= v@.len(),
    ensures
        r == spec_parse_i64(v@.subrange(start as int, end as int)),
{
    let ghost cs = v@.subrange(start as int, end as int);
    let mut a: usize = start;
    while a < end && v[a] == '+'
        invariant
            start <= a <= end,
            end <= v@.len(),
            forall|k: int| start <= k < a ==> #[trigger] v@[k] == '+',
        decreases end - a,
    {
        a += 1;
    }
    proof {
        assert forall|k: int| 0 <= k < a - start implies #[trigger] cs[k] == '+' by {
            assert(cs[k] == v@[start + k]);
        }
        if a < end {
            assert(cs[a - start] == v@[a as int]);
        }
        lemma_leading_plus_unique(cs, a as int - start);
        assert(cs.skip(a as int - start) =~= v@.subrange(a as int, end as int));
    }
    if a < end && v[a] == '-' {
        proof {
            assert(cs.skip(a as int - start)[0] == v@[a as int]);
            assert(cs.skip(a as int - start).drop_first()
                =~= v@.subrange(a as int + 1, end as int));
        }
        match parse_digit_run(v, a + 1, end) {
            None => None,
            Some(n) => {
                if n <= 0x8000_0000_0000_0000u64 {
                    Some((-(n as i128)) as i64)
                } else {
                    None
                }
            },
        }
    } else {
        proof {
            if a < end {
                assert(cs.skip(a as int - start)[0] == v@[a as int]);
            }
        }
        match parse_digit_run(v, a, end) {
            None => None,
            Some(n) => {
                if n <= i64::MAX as u64 {
                    Some(n as i64)
                } else {
                    None
                }
            },
        }
    }
}

/// Parse `v[start..end]` the way the priority field is read.
fn parse_u8_range(v: &Vec<char>, start: usize, end: usize) -> (r: Option<u8>)
    requires
        start <= end <= v@.len(),
    ensures
        r == spec_parse_u8(v@.subrange(start as int, end as int)),
{
    let ghost cs = v@.subrange(start as int, end as int);
    let a: usize = if start < end && v[start] == '+' { start + 1 } else { start };
    proof {
        if start < end {
            assert(cs[0] == v@[start as int]);
        }
        if a > start {
            assert(cs.drop_first() =~= v@.subrange(a as int, end as int));
        }
    }
    match parse_digit_run(v, a, end) {
        None => None,
        Some(n) => {
            if n <= u8::MAX as u64 {
                Some(n as u8)
            } else {
                None
            }
        },
    }
}

/// Validate and parse the add-task form against the given clock reading,
/// building the job to submit. Each field is trimmed; all four are required;
/// the time must be a decimal (seconds from `now` below one billion, an
/// absolute Unix timestamp otherwise), the priority a number up to 255, and
/// the resulting due time must not lie in the past.
pub fn parse_task_form(form: &AddTaskForm, now: i64, max_retries: u32) -> (r: Result<
    Job,
    FormError,
>)
    ensures
        r is Ok <==> spec_form_outcome(
            form.time@, form.priority@, form.description@, form.function@, now,
        ) is Ok,
        r matches Err(e) ==> spec_form_outcome(
            form.time@, form.priority@, form.description@, form.function@, now,
        ) == Err::<(i64, u8), FormError>(e),
        r matches Ok(j) ==> (spec_form_outcome(
            form.time@, form.priority@, form.description@, form.function@, now,
        ) matches Ok(tp)
            && j.execution_time == tp.0
            && j.priority == tp.1
            && j.description@ == spec_trim(form.description@)
            && j.function@ == spec_trim(form.function@)
            && j.status == Status::Pending
            && j.max_retries == max_retries
            && j.retry_count == 0
            && j.wf()),
{
    let tv = chars_of_str(form.time.as_str());
    let pv = chars_of_str(form.priority.as_str());
    let dv = chars_of_str(form.description.as_str());
    let fv = chars_of_str(form.function.as_str());
    let (ts, te) = trim_bounds(&tv);
    let (ps, pe) = trim_bounds(&pv);
    let (ds, de) = trim_bounds(&dv);
    let (fs, fe) = trim_bounds(&fv);
    if ts == te || ps == pe || ds == de || fs == fe {
        return Err(FormError::MissingField);
    }
    let tval: i64 = match parse_i64_range(&tv, ts, te) {
        Some(x) => x,
        None => {
            return Err(FormError::InvalidTime);
        },
    };
    let et: i64 = if tval < 1_000_000_000 {
        if tval >= 0 && now > i64::MAX - tval {
            return Err(FormError::InvalidTime);
        }
        if tval < 0 && now < i64::MIN - tval {
            return Err(FormError::InvalidTime);
        }
        now + tval
    } else {
        tval
    };
    let prio: u8 = match parse_u8_range(&pv, ps, pe) {
        Some(x) => x,
        None => {
            return Err(FormError::InvalidPriority);
        },
    };
    if et < now {
        return Err(FormError::PastDue);
    }
    let desc = string_from_range(&dv, ds, de - ds);
    let func = string_from_range(&fv, fs, fe - fs);
    match Job::new_at(et, prio, desc.as_str(), func.as_str(), max_retries, now) {
        Ok(j) => Ok(j),
        Err(_) => Err(FormError::PastDue),
    }
}

/// The list row to select after the selected one of `len` rows is removed:
/// nothing is left selected when the list empties; otherwise the previous
/// row, wrapping, in the shortened list — the remainder `sel % (len - 1)`,
/// which equals the `(sel + len - 1) % (len - 1)` the interface computes.
pub fn selection_after_remove(sel: usize, len: usize) -> (r: Option<usize>)
    requires
        sel < len,
    ensures
        len <= 1 ==> r is None,
        len > 1 ==> (r matches Some(x)
            && x as int == ((sel + len - 1) as int) % ((len - 1) as int)),
{
    if len <= 1 {
        None
    } else {
        let m: usize = len - 1;
        let x: usize = sel % m;
        proof {
            assert(((sel + m) as int) % (m as int) == (sel as int) % (m as int))
                by (nonlinear_arith)
                requires m > 0,
            {};
        }
        Some(x)
    }
}

} // verus!
