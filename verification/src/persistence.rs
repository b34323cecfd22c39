//! Durable snapshots: a text codec for the store's contents and the
//! persistence manager that owns the backing file's path.
//!
//! A snapshot is a sequence of records, one per job and each ending in a
//! newline. A record holds nine 20-digit decimal fields — id (split in two
//! 64-bit halves), the sign and magnitude of the due time, priority, status
//! code, retry budget, retry counter, and description length — then the
//! description's characters, a 20-digit function-name length, the function
//! name's characters. Fixed widths and length prefixes make the format
//! self-delimiting without any escaping.

use vstd::prelude::*;
use vstd::string::StrSliceExecFns;
use crate::job::{Job, JobView, Status, views_of};
use crate::text::{push_char, chars_of_str, string_from_range};
use crate::numfmt::{
    fixed_digits, parse_number, parse_number_at, push_fixed,
    lemma_parse_number_inverts, lemma_fixed_digits_props, NUM_WIDTH,
};

verus! {

/// One more than the largest 64-bit value: the base in which a 128-bit id is
/// split into two 64-bit halves.
pub const ID_BASE: u128 = 18_446_744_073_709_551_616;

/// The numeric code a status is stored as.
pub open spec fn status_code(s: Status) -> nat {
    match s {
        Status::Pending => 0,
        Status::Running => 1,
        Status::Success => 2,
        Status::Failed => 3,
    }
}

/// The status a stored numeric code denotes (codes above 3 are rejected
/// before this is applied).
pub open spec fn code_status(code: nat) -> Status {
    if code == 0 { Status::Pending }
    else if code == 1 { Status::Running }
    else if code == 2 { Status::Success }
    else { Status::Failed }
}

/// The stored sign field of a due time.
pub open spec fn time_sign(t: i64) -> nat {
    if t < 0 { 1 } else { 0 }
}

/// The stored magnitude field of a due time.
pub open spec fn time_mag(t: i64) -> nat {
    if t < 0 { (-(t as int)) as nat } else { t as nat }
}

/// The due time a stored sign and magnitude denote.
pub open spec fn time_of(sign: nat, mag: nat) -> i64 {
    if sign == 1 { (-(mag as int)) as i64 } else { mag as i64 }
}

/// Ranges the numeric fields of a well-formed record must fit.
pub open spec fn record_fields_ok(sign: nat, mag: nat, prio: nat, code: nat, maxr: nat, retry: nat) -> bool {
    &&& sign <= 1
    &&& (sign == 0 ==> mag <= i64::MAX)
    &&& (sign == 1 ==> mag <= 0x8000_0000_0000_0000)
    &&& prio <= u8::MAX
    &&& code <= 3
    &&& maxr <= u32::MAX
    &&& retry <= u32::MAX
}

/// The text of one job record (grouped from the right, the way the parser
/// peels it off).
pub open spec fn encode_record(j: JobView) -> Seq<char> {
    fixed_digits((j.id / ID_BASE) as nat, 20)
    + (fixed_digits((j.id % ID_BASE) as nat, 20)
    + (fixed_digits(time_sign(j.execution_time), 20)
    + (fixed_digits(time_mag(j.execution_time), 20)
    + (fixed_digits(j.priority as nat, 20)
    + (fixed_digits(status_code(j.status), 20)
    + (fixed_digits(j.max_retries as nat, 20)
    + (fixed_digits(j.retry_count as nat, 20)
    + (fixed_digits(j.description.len(), 20)
    + (j.description
    + (fixed_digits(j.function.len(), 20)
    + (j.function
    + seq!['\n'])))))))))))
}

/// The text of a whole snapshot: the records in order.
pub open spec fn encode_jobs(js: Seq<JobView>) -> Seq<char>
    decreases js.len(),
{
    if js.len() == 0 {
        Seq::empty()
    } else {
        encode_record(js[0]) + encode_jobs(js.drop_first())
    }
}

/// A length-prefixed character chunk: the next `n` characters and the rest.
pub open spec fn parse_chunk(cs: Seq<char>, n: nat) -> Option<(Seq<char>, Seq<char>)> {
    if n <= cs.len() {
        Some((cs.take(n as int), cs.skip(n as int)))
    } else {
        None
    }
}

/// A record terminator.
pub open spec fn parse_newline(cs: Seq<char>) -> Option<Seq<char>> {
    if cs.len() >= 1 && cs[0] == '\n' {
        Some(cs.drop_first())
    } else {
        None
    }
}

/// What follows the eight leading numeric fields of a record: a range check,
/// the two length-prefixed strings, and the terminator.
pub open spec fn parse_record_tail(
    id_hi: nat, id_lo: nat, sign: nat, mag: nat,
    prio: nat, code: nat, maxr: nat, retry: nat,
    cs: Seq<char>,
) -> Option<(JobView, Seq<char>)> {
    if !record_fields_ok(sign, mag, prio, code, maxr, retry) {
        None
    } else {
        match parse_number(cs) {
            None => None,
            Some((dlen, cs1)) => match parse_chunk(cs1, dlen) {
                None => None,
                Some((desc, cs2)) => match parse_number(cs2) {
                    None => None,
                    Some((flen, cs3)) => match parse_chunk(cs3, flen) {
                        None => None,
                        Some((func, cs4)) => match parse_newline(cs4) {
                            None => None,
                            Some(rest) => Some((
                                JobView {
                                    id: (id_hi * ID_BASE + id_lo) as u128,
                                    execution_time: time_of(sign, mag),
                                    priority: prio as u8,
                                    description: desc,
                                    function: func,
                                    status: code_status(code),
                                    max_retries: maxr as u32,
                                    retry_count: retry as u32,
                                },
                                rest,
                            )),
                        },
                    },
                },
            },
        }
    }
}

/// One record at the head of `cs`: the job it denotes and the rest of the
/// input, or nothing if the record is malformed.
#[verifier::opaque]
pub open spec fn parse_record(cs: Seq<char>) -> Option<(JobView, Seq<char>)> {
    match parse_number(cs) {
        None => None,
        Some((id_hi, cs1)) => match parse_number(cs1) {
            None => None,
            Some((id_lo, cs2)) => match parse_number(cs2) {
                None => None,
                Some((sign, cs3)) => match parse_number(cs3) {
                    None => None,
                    Some((mag, cs4)) => match parse_number(cs4) {
                        None => None,
                        Some((prio, cs5)) => match parse_number(cs5) {
                            None => None,
                            Some((code, cs6)) => match parse_number(cs6) {
                                None => None,
                                Some((maxr, cs7)) => match parse_number(cs7) {
                                    None => None,
                                    Some((retry, cs8)) => parse_record_tail(
                                        id_hi, id_lo, sign, mag, prio, code, maxr, retry, cs8,
                                    ),
                                },
                            },
                        },
                    },
                },
            },
        },
    }
}

/// A whole snapshot: records until the input ends; any flaw rejects the
/// whole text.
pub open spec fn parse_jobs(cs: Seq<char>) -> Option<Seq<JobView>>
    decreases cs.len(),
{
    if cs.len() == 0 {
        Some(Seq::empty())
    } else {
        match parse_record(cs) {
            None => None,
            Some((jv, rest)) => if rest.len() < cs.len() {
                match parse_jobs(rest) {
                    None => None,
                    Some(tail) => Some(seq![jv] + tail),
                }
            } else {
                None
            },
        }
    }
}

/// Concatenation of character sequences is associative.
pub proof fn lemma_concat_assoc(a: Seq<char>, b: Seq<char>, c: Seq<char>)
    ensures
        (a + b) + c == a + (b + c),
{
    assert((a + b) + c =~= a + (b + c));
}

/// An encoded record parses back to exactly the job it was made from,
/// whatever follows it.
#[verifier::rlimit(60)]
pub proof fn lemma_parse_record_inverts(jv: JobView, rest: Seq<char>)
    requires
        jv.description.len() <= u64::MAX,
        jv.function.len() <= u64::MAX,
    ensures
        parse_record(encode_record(jv) + rest) == Some((jv, rest)),
{
    reveal(parse_record);
    let hi = (jv.id / ID_BASE) as nat;
    let lo = (jv.id % ID_BASE) as nat;
    let sign = time_sign(jv.execution_time);
    let mag = time_mag(jv.execution_time);
    let prio = jv.priority as nat;
    let code = status_code(jv.status);
    let maxr = jv.max_retries as nat;
    let retry = jv.retry_count as nat;
    let dlen = jv.description.len();
    let flen = jv.function.len();

    let e1 = fixed_digits(hi, 20);
    let e2 = fixed_digits(lo, 20);
    let e3 = fixed_digits(sign, 20);
    let e4 = fixed_digits(mag, 20);
    let e5 = fixed_digits(prio, 20);
    let e6 = fixed_digits(code, 20);
    let e7 = fixed_digits(maxr, 20);
    let e8 = fixed_digits(retry, 20);
    let e9 = fixed_digits(dlen, 20);
    let e10 = jv.description;
    let e11 = fixed_digits(flen, 20);
    let e12 = jv.function;
    let e13 = seq!['\n'];

    let t13 = e13;
    let t12 = e12 + t13;
    let t11 = e11 + t12;
    let t10 = e10 + t11;
    let t9 = e9 + t10;
    let t8 = e8 + t9;
    let t7 = e7 + t8;
    let t6 = e6 + t7;
    let t5 = e5 + t6;
    let t4 = e4 + t5;
    let t3 = e3 + t4;
    let t2 = e2 + t3;
    assert(encode_record(jv) == e1 + t2);

    let r13 = rest;
    let r12 = t13 + rest;
    let r11 = t12 + rest;
    let r10 = t11 + rest;
    let r9 = t10 + rest;
    let r8 = t9 + rest;
    let r7 = t8 + rest;
    let r6 = t7 + rest;
    let r5 = t6 + rest;
    let r4 = t5 + rest;
    let r3 = t4 + rest;
    let r2 = t3 + rest;
    let r1 = t2 + rest;
    lemma_concat_assoc(e1, t2, rest);
    assert(encode_record(jv) + rest == e1 + r1);
    lemma_concat_assoc(e2, t3, rest);
    assert(r1 == e2 + r2);
    lemma_concat_assoc(e3, t4, rest);
    assert(r2 == e3 + r3);
    lemma_concat_assoc(e4, t5, rest);
    assert(r3 == e4 + r4);
    lemma_concat_assoc(e5, t6, rest);
    assert(r4 == e5 + r5);
    lemma_concat_assoc(e6, t7, rest);
    assert(r5 == e6 + r6);
    lemma_concat_assoc(e7, t8, rest);
    assert(r6 == e7 + r7);
    lemma_concat_assoc(e8, t9, rest);
    assert(r7 == e8 + r8);
    lemma_concat_assoc(e9, t10, rest);
    assert(r8 == e9 + r9);
    lemma_concat_assoc(e10, t11, rest);
    assert(r9 == e10 + r10);
    lemma_concat_assoc(e11, t12, rest);
    assert(r10 == e11 + r11);
    lemma_concat_assoc(e12, t13, rest);
    assert(r11 == e12 + r12);

    assert(hi <= u64::MAX && lo <= u64::MAX) by {
        assert(jv.id / ID_BASE < ID_BASE) by (nonlinear_arith)
            requires jv.id <= u128::MAX,
        {};
        assert(jv.id % ID_BASE < ID_BASE) by (nonlinear_arith);
    };

    lemma_parse_number_inverts(hi, r1);
    lemma_parse_number_inverts(lo, r2);
    lemma_parse_number_inverts(sign, r3);
    lemma_parse_number_inverts(mag, r4);
    lemma_parse_number_inverts(prio, r5);
    lemma_parse_number_inverts(code, r6);
    lemma_parse_number_inverts(maxr, r7);
    lemma_parse_number_inverts(retry, r8);
    assert(record_fields_ok(sign, mag, prio, code, maxr, retry));
    lemma_parse_number_inverts(dlen, r9);
    assert(parse_chunk(r9, dlen) == Some((e10, r10))) by {
        assert(r9.take(dlen as int) =~= e10);
        assert(r9.skip(dlen as int) =~= r10);
    };
    lemma_parse_number_inverts(flen, r11);
    assert(parse_chunk(r11, flen) == Some((e12, r12))) by {
        assert(r11.take(flen as int) =~= e12);
        assert(r11.skip(flen as int) =~= r12);
    };
    assert(parse_newline(r12) == Some(rest)) by {
        assert(r12[0] == '\n');
        assert(r12.drop_first() =~= rest);
    };

    assert(hi * ID_BASE + lo == jv.id) by (nonlinear_arith)
        requires hi == jv.id / ID_BASE && lo == jv.id % ID_BASE,
    {};
    assert(time_of(sign, mag) == jv.execution_time);
    assert(code_status(status_code(jv.status)) == jv.status);

    let parsed = parse_record_tail(hi, lo, sign, mag, prio, code, maxr, retry, r8);
    assert(parsed matches Some(p) && p.0 == jv && p.1 == rest);
}

/// Appending one job to a snapshot appends exactly its record to the text.
pub proof fn lemma_encode_jobs_push(js: Seq<JobView>, x: JobView)
    ensures
        encode_jobs(js.push(x)) == encode_jobs(js) + encode_record(x),
    decreases js.len(),
{
    if js.len() == 0 {
        assert(js.push(x)[0] == x);
        assert(js.push(x).drop_first() =~= Seq::<JobView>::empty());
        assert(encode_jobs(Seq::<JobView>::empty()) == Seq::<char>::empty());
        assert(encode_jobs(js.push(x)) == encode_record(x) + Seq::<char>::empty());
        assert(encode_record(x) + Seq::<char>::empty() =~= encode_record(x));
        assert(encode_jobs(js) + encode_record(x) =~= encode_record(x));
    } else {
        assert(js.push(x).drop_first() =~= js.drop_first().push(x));
        lemma_encode_jobs_push(js.drop_first(), x);
        assert(js.push(x)[0] == js[0]);
        assert(encode_record(js[0]) + (encode_jobs(js.drop_first()) + encode_record(x))
            =~= (encode_record(js[0]) + encode_jobs(js.drop_first())) + encode_record(x));
    }
}

/// Persistence round-trip law: a snapshot of any jobs, once encoded, decodes
/// to exactly those jobs — same ids, descriptions, statuses, and every other
/// field, in the same order.
#[verifier::rlimit(60)]
pub proof fn lemma_snapshot_round_trip(views: Seq<JobView>)
    requires
        forall|i: int| 0 <= i < views.len()
            ==> (#[trigger] views[i]).description.len() <= u64::MAX,
        forall|i: int| 0 <= i < views.len()
            ==> (#[trigger] views[i]).function.len() <= u64::MAX,
    ensures
        parse_jobs(encode_jobs(views)) == Some(views),
    decreases views.len(),
{
    if views.len() == 0 {
    } else {
        let jv = views[0];
        let tail = encode_jobs(views.drop_first());
        let cs = encode_jobs(views);
        lemma_parse_record_inverts(jv, tail);
        lemma_fixed_digits_props((jv.id / ID_BASE) as nat, 20);
        assert(encode_record(jv).len() >= 1);
        assert(cs.len() == encode_record(jv).len() + tail.len());
        assert forall|i: int| 0 <= i < views.drop_first().len() implies
            (#[trigger] views.drop_first()[i]).description.len() <= u64::MAX
            && views.drop_first()[i].function.len() <= u64::MAX by {
            assert(views.drop_first()[i] == views[i + 1]);
        }
        lemma_snapshot_round_trip(views.drop_first());
        assert(seq![jv] + views.drop_first() =~= views);
    }
}

/// Append every character of `s`.
#[verifier::loop_isolation(false)]
fn push_string_chars(out: &mut Vec<char>, s: &String)
    ensures
        final(out)@ == old(out)@ + s@,
{
    let st: &str = s.as_str();
    let n: usize = st.unicode_len();
    let mut i: usize = 0;
    while i < n
        invariant
            0 <= i <= n,
            n == s@.len(),
            st@ == s@,
            out@ == old(out)@ + s@.take(i as int),
        decreases n - i,
    {
        let c = st.get_char(i);
        out.push(c);
        proof {
            assert((old(out)@ + s@.take(i as int)).push(s@[i as int])
                =~= old(out)@ + s@.take(i + 1));
        }
        i += 1;
    }
    proof {
        assert(s@.take(n as int) =~= s@);
    }
}

/// Append the record of one job.
#[verifier::rlimit(60)]
fn encode_record_into(out: &mut Vec<char>, j: &Job)
    ensures
        final(out)@ == old(out)@ + encode_record(j@),
{
    let id_hi: u128 = j.id / ID_BASE;
    let id_lo: u128 = j.id % ID_BASE;
    push_fixed(out, id_hi, NUM_WIDTH);
    push_fixed(out, id_lo, NUM_WIDTH);
    let sign: u128 = if j.execution_time < 0 { 1 } else { 0 };
    let mag: u128 = if j.execution_time < 0 {
        (-(j.execution_time as i128)) as u128
    } else {
        j.execution_time as u128
    };
    push_fixed(out, sign, NUM_WIDTH);
    push_fixed(out, mag, NUM_WIDTH);
    push_fixed(out, j.priority as u128, NUM_WIDTH);
    let code: u128 = match j.status {
        Status::Pending => 0,
        Status::Running => 1,
        Status::Success => 2,
        Status::Failed => 3,
    };
    push_fixed(out, code, NUM_WIDTH);
    push_fixed(out, j.max_retries as u128, NUM_WIDTH);
    push_fixed(out, j.retry_count as u128, NUM_WIDTH);
    let dlen: usize = j.description.as_str().unicode_len();
    push_fixed(out, dlen as u128, NUM_WIDTH);
    push_string_chars(out, &j.description);
    let flen: usize = j.function.as_str().unicode_len();
    push_fixed(out, flen as u128, NUM_WIDTH);
    push_string_chars(out, &j.function);
    out.push('\n');
    proof {
        assert(sign as nat == time_sign(j@.execution_time));
        assert(mag as nat == time_mag(j@.execution_time));
        assert(code as nat == status_code(j@.status));
        assert(out@ =~= old(out)@ + encode_record(j@));
    }
}

/// The snapshot text for the given jobs, in order: what the durable file
/// holds.
#[verifier::loop_isolation(false)]
pub fn encode_snapshot(jobs: &Vec<Job>) -> (r: String)
    ensures
        r@ == encode_jobs(views_of(jobs@)),
{
    let mut out: Vec<char> = Vec::new();
    let mut i: usize = 0;
    while i < jobs.len()
        invariant
            0 <= i <= jobs@.len(),
            out@ == encode_jobs(views_of(jobs@.take(i as int))),
        decreases jobs@.len() - i,
    {
        encode_record_into(&mut out, &jobs[i]);
        proof {
            lemma_encode_jobs_push(views_of(jobs@.take(i as int)), jobs@[i as int]@);
            assert(views_of(jobs@.take(i + 1))
                =~= views_of(jobs@.take(i as int)).push(jobs@[i as int]@));
        }
        i += 1;
    }
    proof {
        assert(jobs@.take(jobs@.len() as int) =~= jobs@);
    }
    let mut s = String::new();
    let mut k: usize = 0;
    while k < out.len()
        invariant
            0 <= k <= out@.len(),
            s@ == out@.take(k as int),
        decreases out@.len() - k,
    {
        push_char(&mut s, out[k]);
        proof {
            assert(out@.take(k as int).push(out@[k as int]) =~= out@.take(k + 1));
        }
        k += 1;
    }
    proof {
        assert(out@.take(out@.len() as int) =~= out@);
    }
    s
}

/// Parse the eight leading numeric fields of a record, exactly as
/// `parse_record` reads them off the suffix of the input starting at `i`;
/// what remains is handed to `parse_record_tail`.
#[verifier::rlimit(60)]
fn parse_header_at(v: &Vec<char>, i: usize) -> (r: Option<(u64, u64, u64, u64, u64, u64, u64, u64, usize)>)
    requires
        i <= v@.len(),
    ensures
        r is None ==> parse_record(v@.skip(i as int)) is None,
        r matches Some((hi, lo, sign, mag, prio, code, maxr, retry, p8)) ==>
            i < p8 <= v@.len()
            && parse_record(v@.skip(i as int)) == parse_record_tail(
                hi as nat, lo as nat, sign as nat, mag as nat,
                prio as nat, code as nat, maxr as nat, retry as nat,
                v@.skip(p8 as int),
            ),
{
    proof {
        reveal(parse_record);
    }
    let vl: usize = v.len();
    let id_hi: u64 = match parse_number_at(v, i) { Some(n) => n, None => { return None; } };
    let p1: usize = i + 20;
    let id_lo: u64 = match parse_number_at(v, p1) { Some(n) => n, None => { return None; } };
    let p2: usize = p1 + 20;
    let sign: u64 = match parse_number_at(v, p2) { Some(n) => n, None => { return None; } };
    let p3: usize = p2 + 20;
    let mag: u64 = match parse_number_at(v, p3) { Some(n) => n, None => { return None; } };
    let p4: usize = p3 + 20;
    let prio: u64 = match parse_number_at(v, p4) { Some(n) => n, None => { return None; } };
    let p5: usize = p4 + 20;
    let code: u64 = match parse_number_at(v, p5) { Some(n) => n, None => { return None; } };
    let p6: usize = p5 + 20;
    let maxr: u64 = match parse_number_at(v, p6) { Some(n) => n, None => { return None; } };
    let p7: usize = p6 + 20;
    let retry: u64 = match parse_number_at(v, p7) { Some(n) => n, None => { return None; } };
    let p8: usize = p7 + 20;
    Some((id_hi, id_lo, sign, mag, prio, code, maxr, retry, p8))
}

/// Parse the record at position `i`, exactly as `parse_record` reads the
/// suffix of the input starting there.
#[verifier::spinoff_prover]
#[verifier::rlimit(100)]
fn parse_record_at(v: &Vec<char>, i: usize) -> (r: Option<(Job, usize)>)
    requires
        i <= v@.len(),
    ensures
        r is None <==> parse_record(v@.skip(i as int)) is None,
        r matches Some((job, jn)) ==> i < jn <= v@.len()
            && (parse_record(v@.skip(i as int)) matches Some((jv, rest))
                && job@ == jv && rest == v@.skip(jn as int)),
{
    let vl: usize = v.len();
    let (id_hi, id_lo, sign, mag, prio, code, maxr, retry, p8) =
        match parse_header_at(v, i) {
            Some(h) => h,
            None => { return None; },
        };

    if sign > 1 { return None; }
    if sign == 0 && mag > i64::MAX as u64 { return None; }
    if sign == 1 && mag > 0x8000_0000_0000_0000u64 { return None; }
    if prio > u8::MAX as u64 { return None; }
    if code > 3 { return None; }
    if maxr > u32::MAX as u64 { return None; }
    if retry > u32::MAX as u64 { return None; }

    let dlen: u64 = match parse_number_at(v, p8) { Some(n) => n, None => { return None; } };
    let p9: usize = p8 + 20;
    if dlen > (vl - p9) as u64 {
        proof {
            assert(parse_chunk(v@.skip(p9 as int), dlen as nat) is None);
        }
        return None;
    }
    let dl: usize = dlen as usize;
    let description = string_from_range(v, p9, dl);
    let p10: usize = p9 + dl;
    proof {
        assert(v@.skip(p9 as int).take(dlen as int)
            =~= v@.subrange(p9 as int, p9 as int + dlen as int));
        assert(v@.skip(p9 as int).skip(dlen as int) =~= v@.skip(p10 as int));
    }

    let flen: u64 = match parse_number_at(v, p10) { Some(n) => n, None => { return None; } };
    let p11: usize = p10 + 20;
    if flen > (vl - p11) as u64 {
        proof {
            assert(parse_chunk(v@.skip(p11 as int), flen as nat) is None);
        }
        return None;
    }
    let fl: usize = flen as usize;
    let function = string_from_range(v, p11, fl);
    let p12: usize = p11 + fl;
    proof {
        assert(v@.skip(p11 as int).take(flen as int)
            =~= v@.subrange(p11 as int, p11 as int + flen as int));
        assert(v@.skip(p11 as int).skip(flen as int) =~= v@.skip(p12 as int));
    }

    if p12 >= vl || v[p12] != '\n' {
        proof {
            if p12 < v@.len() {
                assert(v@.skip(p12 as int)[0] == v@[p12 as int]);
            }
            assert(parse_newline(v@.skip(p12 as int)) is None);
        }
        return None;
    }
    let p13: usize = p12 + 1;
    proof {
        assert(v@.skip(p12 as int)[0] == v@[p12 as int]);
        assert(v@.skip(p12 as int).drop_first() =~= v@.skip(p13 as int));
    }

    proof {
        assert((id_hi as int) * (ID_BASE as int) + (id_lo as int) < 0x100000000000000000000000000000000)
            by (nonlinear_arith)
            requires id_hi <= 0xffff_ffff_ffff_ffffu64, id_lo <= 0xffff_ffff_ffff_ffffu64,
        {};
    }
    let id: u128 = (id_hi as u128) * ID_BASE + (id_lo as u128);
    let execution_time: i64 = if sign == 1 {
        (-(mag as i128)) as i64
    } else {
        mag as i64
    };
    let status: Status = if code == 0 { Status::Pending }
        else if code == 1 { Status::Running }
        else if code == 2 { Status::Success }
        else { Status::Failed };
    let job = Job {
        id,
        execution_time,
        priority: prio as u8,
        description,
        function,
        status,
        max_retries: maxr as u32,
        retry_count: retry as u32,
    };
    proof {
        assert(parse_record(v@.skip(i as int)) matches Some(p) && p.0 == job@
            && p.1 == v@.skip(p13 as int));
    }
    Some((job, p13))
}

/// One step of the snapshot grammar, unfolded.
proof fn lemma_parse_jobs_step(cs: Seq<char>)
    requires
        cs.len() > 0,
    ensures
        parse_record(cs) is None ==> parse_jobs(cs) is None,
        parse_record(cs) matches Some(p) ==> (p.1.len() < cs.len() ==> (
            (parse_jobs(cs) is Some <==> parse_jobs(p.1) is Some)
            && (parse_jobs(cs) matches Some(all)
                ==> (parse_jobs(p.1) matches Some(t) && all == seq![p.0] + t))
        )),
{
}

/// Decode a snapshot text: the jobs it holds, in order — or no jobs at all
/// if the text is malformed anywhere.
#[verifier::loop_isolation(false)]
#[verifier::rlimit(80)]
pub fn decode_snapshot(data: &str) -> (r: Vec<Job>)
    ensures
        parse_jobs(data@) matches Some(views) ==> views_of(r@) == views,
        parse_jobs(data@) is None ==> r@ == Seq::<Job>::empty(),
{
    let v = chars_of_str(data);
    proof {
        assert(v@.skip(0) =~= v@);
    }
    let mut out: Vec<Job> = Vec::new();
    let mut p: usize = 0;
    while p < v.len()
        invariant
            0 <= p <= v@.len(),
            v@ == data@,
            (parse_jobs(data@) is Some) == (parse_jobs(v@.skip(p as int)) is Some),
            parse_jobs(data@) matches Some(all)
                ==> (parse_jobs(v@.skip(p as int)) matches Some(t)
                    && all == views_of(out@) + t),
        decreases v@.len() - p,
    {
        let ghost suffix = v@.skip(p as int);
        proof {
            lemma_parse_jobs_step(suffix);
        }
        match parse_record_at(&v, p) {
            None => {
                let empty: Vec<Job> = Vec::new();
                proof {
                    assert(parse_jobs(suffix) is None);
                    assert(views_of(empty@) =~= Seq::<JobView>::empty());
                }
                return empty;
            },
            Some((job, pn)) => {
                proof {
                    let (jv, rest) = parse_record(suffix)->Some_0;
                    assert(rest == v@.skip(pn as int));
                    assert(rest.len() < suffix.len());
                    if let Some(all) = parse_jobs(data@) {
                        let t = parse_jobs(suffix)->Some_0;
                        let t2 = parse_jobs(rest)->Some_0;
                        assert(t == seq![jv] + t2);
                        assert(views_of(out@.push(job)) =~= views_of(out@).push(job@));
                        assert(views_of(out@) + (seq![jv] + t2)
                            =~= views_of(out@).push(job@) + t2);
                    }
                }
                out.push(job);
                p = pn;
            },
        }
    }
    proof {
        assert(v@.skip(p as int) =~= Seq::<char>::empty());
        assert(parse_jobs(Seq::<char>::empty()) == Some(Seq::<JobView>::empty()));
        if let Some(all) = parse_jobs(data@) {
            assert(views_of(out@) + Seq::<JobView>::empty() =~= views_of(out@));
        }
    }
    out
}

/// What loading the durable state means once the file's contents are in
/// hand: no file at all, or a malformed file, yields no jobs rather than an
/// error; a well-formed file yields exactly the jobs it encodes.
pub fn load_jobs_from_contents(contents: Option<&str>) -> (r: Vec<Job>)
    ensures
        contents is None ==> r@ == Seq::<Job>::empty(),
        contents matches Some(s) ==> (
            (parse_jobs(s@) matches Some(views) ==> views_of(r@) == views)
            && (parse_jobs(s@) is None ==> r@ == Seq::<Job>::empty())
        ),
{
    match contents {
        None => Vec::new(),
        Some(s) => decode_snapshot(s),
    }
}

/// The durability layer's identity: where the snapshot file lives. Reading
/// and writing the file happen outside the scheduling hot path; the codec
/// above fixes what those bytes mean.
pub struct PersistenceManager {
    pub storage_path: String,
}

impl PersistenceManager {
    /// A manager for the given backing file path.
    pub fn new(storage_path: &str) -> (r: Self)
        ensures
            r.storage_path@ == storage_path@,
    {
        PersistenceManager { storage_path: storage_path.to_owned() }
    }
}

} // verus!
