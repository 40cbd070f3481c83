//! Material for measuring the throughput of the input layer: a sample text
//! grown to a wanted size, and the label under which a measurement is
//! reported.

use vstd::prelude::*;
use vstd::string::*;
use vstd::utf8::*;
use crate::tokenizer::text::{lemma_encode_concat, lemma_encode_empty};

verus! {

/// `times` copies of `text`, one after the other.
pub open spec fn repeated(text: Seq<char>, times: nat) -> Seq<char>
    decreases times,
{
    if times == 0 {
        Seq::empty()
    } else {
        repeated(text, (times - 1) as nat) + text
    }
}

/// The least number of blocks of `unit` bytes that together hold at least
/// `size` bytes.
pub open spec fn copies_needed(unit: int, size: int) -> nat
    decreases size,
{
    if size <= 0 || unit <= 0 {
        0
    } else if size <= unit {
        1
    } else {
        1 + copies_needed(unit, size - unit)
    }
}

/// `copies_needed` is the least count whose blocks reach `size`.
pub proof fn lemma_copies_needed(unit: int, size: int)
    requires
        unit > 0,
        size >= 0,
    ensures
        copies_needed(unit, size) * unit >= size,
        copies_needed(unit, size) > 0 ==> (copies_needed(unit, size) - 1) * unit < size,
        size > 0 ==> copies_needed(unit, size) > 0,
    decreases size,
{
    let c = copies_needed(unit, size) as int;
    if size == 0 {
        assert(c * unit == 0) by (nonlinear_arith)
            requires
                c == 0,
        ;
    } else if size <= unit {
        assert(c * unit == unit && (c - 1) * unit == 0) by (nonlinear_arith)
            requires
                c == 1,
        ;
    } else {
        lemma_copies_needed(unit, size - unit);
        let m = copies_needed(unit, size - unit) as int;
        assert(c * unit == unit + m * unit && (m - 1) * unit == m * unit - unit)
            by (nonlinear_arith)
            requires
                c == 1 + m,
        ;
    }
}

/// Replicates `text` in memory up to the desired size: the result is as
/// many whole copies of `text` as it takes to hold at least `size` bytes,
/// and no copy more.
///
/// An empty `text` never reaches a positive size, so it is not accepted
/// with one.
pub fn replicate(text: &str, size: usize) -> (out: String)
    requires
        size > 0 ==> text@.len() > 0,
    ensures
        out@ == repeated(text@, copies_needed(text.spec_bytes().len() as int, size as int)),
{
    let mut out = String::new();
    let ghost unit = text.spec_bytes().len() as int;
    let ghost mut copies: nat = 0;
    proof {
        lemma_encode_empty(text@);
        lemma_encode_empty(out@);
    }
    while out.as_str().as_bytes().len() < size
        invariant
            unit == encode_utf8(text@).len(),
            size > 0 ==> unit > 0,
            out@ == repeated(text@, copies),
            copies_needed(unit, size as int) == copies + copies_needed(
                unit,
                size - encode_utf8(out@).len(),
            ),
        decreases copies_needed(unit, size - encode_utf8(out@).len()),
    {
        proof {
            lemma_encode_concat(out@, text@);
            copies = copies + 1;
        }
        out.append(text);
    }
    out
}

/// The character for a decimal digit.
pub open spec fn digit(d: nat) -> char
    recommends
        d < 10,
{
    ('0' as nat + d) as char
}

/// The decimal numeral of `n`, without leading zeros.
pub open spec fn decimal(n: nat) -> Seq<char>
    decreases n,
{
    if n < 10 {
        seq![digit(n)]
    } else {
        decimal(n / 10).push(digit(n % 10))
    }
}

/// `body` behind as many spaces as bring it to `width` characters, or
/// `body` alone where it is that long already.
pub open spec fn right_aligned(body: Seq<char>, width: nat) -> Seq<char> {
    if body.len() >= width {
        body
    } else {
        Seq::new((width - body.len()) as nat, |i: int| ' ') + body
    }
}

/// The part of a label that names the size: nothing where the sample is
/// used as it is, else the size in decimal, right-aligned in seven columns.
pub open spec fn size_part(size: Option<usize>) -> Seq<char> {
    match size {
        None => Seq::empty(),
        Some(s) => " size "@ + right_aligned(decimal(s as nat), 7),
    }
}

/// The label of one measurement.
pub open spec fn label(
    name: Seq<char>,
    size: Option<usize>,
    clone_only: bool,
    exact_errors: bool,
) -> Seq<char> {
    "tokenize "@ + name + size_part(size) + (if clone_only {
        " (clone only)"@
    } else {
        Seq::empty()
    }) + (if exact_errors {
        " (exact errors)"@
    } else {
        Seq::empty()
    })
}

fn digit_char(d: usize) -> (c: char)
    requires
        d < 10,
    ensures
        c == digit(d as nat),
{
    match d {
        0 => '0',
        1 => '1',
        2 => '2',
        3 => '3',
        4 => '4',
        5 => '5',
        6 => '6',
        7 => '7',
        8 => '8',
        _ => '9',
    }
}

fn decimal_width(n: usize) -> (w: usize)
    ensures
        w == decimal(n as nat).len(),
        1 <= w <= n as int + 1,
    decreases n,
{
    if n < 10 {
        1
    } else {
        1 + decimal_width(n / 10)
    }
}

fn push_decimal(out: &mut String, n: usize)
    ensures
        final(out)@ == old(out)@ + decimal(n as nat),
    decreases n,
{
    if n >= 10 {
        push_decimal(out, n / 10);
    }
    out.push(digit_char(n % 10));
    assert(out@ =~= old(out)@ + decimal(n as nat));
}

/// Builds the label of one measurement: the sample's name, then its size,
/// if one was asked for, and a note for each option that is on.
pub fn bench_name(name: &str, size: Option<usize>, clone_only: bool, exact_errors: bool) -> (out:
    String)
    ensures
        out@ == label(name@, size, clone_only, exact_errors),
{
    let mut out = String::from_str("tokenize ");
    out.append(name);
    match size {
        None => {
            assert(out@ =~= "tokenize "@ + name@ + size_part(size));
        },
        Some(s) => {
            out.append(" size ");
            let ghost base = out@;
            let width: usize = decimal_width(s);
            let mut k: usize = width;
            while k < 7
                invariant
                    width <= k,
                    k <= 7 || k == width,
                    out@ == base + Seq::new((k - width) as nat, |i: int| ' '),
                decreases 7 - k,
            {
                out.push(' ');
                k += 1;
                assert(out@ =~= base + Seq::new((k - width) as nat, |i: int| ' '));
            }
            push_decimal(&mut out, s);
            assert(out@ =~= "tokenize "@ + name@ + size_part(size));
        },
    }
    if clone_only {
        out.append(" (clone only)");
    }
    if exact_errors {
        out.append(" (exact errors)");
    }
    assert(out@ =~= label(name@, size, clone_only, exact_errors));
    out
}

/// One measurement to make: which sample, grown to which size, and with
/// which options.
#[derive(Clone, Debug, PartialEq, Eq)]
pub struct BenchCase {
    /// The sample's file name, relative to the directory of samples.
    pub name: String,
    /// The size in bytes to grow the sample to, or `None` to use it as it is.
    pub size: Option<usize>,
    /// Whether only the copying of the input is measured.
    pub clone_only: bool,
    /// Whether parse errors are to be reported in full detail.
    pub exact_errors: bool,
}

/// A measurement as plain values.
pub ghost struct CaseView {
    pub name: Seq<char>,
    pub size: Option<usize>,
    pub clone_only: bool,
    pub exact_errors: bool,
}

impl View for BenchCase {
    type V = CaseView;

    open spec fn view(&self) -> CaseView {
        CaseView {
            name: self.name@,
            size: self.size,
            clone_only: self.clone_only,
            exact_errors: self.exact_errors,
        }
    }
}

/// The measurements of a list as plain values.
pub open spec fn views(cases: Seq<BenchCase>) -> Seq<CaseView> {
    cases.map_values(|c: BenchCase| c@)
}

/// The three samples that are always measured.
pub open spec fn sample(i: int) -> Seq<char> {
    if i == 0 {
        "lipsum.html"@
    } else if i == 1 {
        "lipsum-zh.html"@
    } else {
        "strong.html"@
    }
}

/// The three large samples that are measured only on request.
pub open spec fn large_sample(i: int) -> Seq<char> {
    "uncommitted/"@ + (if i == 0 {
        "webapps.html"@
    } else if i == 1 {
        "sina.com.cn.html"@
    } else {
        "wikipedia.html"@
    })
}

/// The measurements under one setting of the options: each sample at one
/// kibibyte and at one mebibyte, then, on request, each large sample as it
/// is.
pub open spec fn round(exact_errors: bool, large: bool) -> Seq<CaseView> {
    Seq::new(
        6,
        |i: int|
            CaseView {
                name: sample(i / 2),
                size: Some(if i % 2 == 0 { 1024usize } else { 1048576usize }),
                clone_only: false,
                exact_errors,
            },
    ) + (if large {
        Seq::new(
            3,
            |i: int|
                CaseView { name: large_sample(i), size: None, clone_only: false, exact_errors },
        )
    } else {
        Seq::empty()
    })
}

/// Every measurement, in the order in which they are made: the copying
/// alone, a round with the default options, and on request a round with
/// exact errors.
pub open spec fn plan(exact_errors: bool, large: bool) -> Seq<CaseView> {
    seq![
        CaseView {
            name: "lipsum.html"@,
            size: Some(1048576usize),
            clone_only: true,
            exact_errors: false,
        },
    ] + round(false, large) + (if exact_errors {
        round(true, large)
    } else {
        Seq::empty()
    })
}

fn sample_name(i: usize) -> (s: &'static str)
    requires
        i < 3,
    ensures
        s@ == sample(i as int),
{
    if i == 0 {
        "lipsum.html"
    } else if i == 1 {
        "lipsum-zh.html"
    } else {
        "strong.html"
    }
}

fn large_sample_name(i: usize) -> (s: String)
    requires
        i < 3,
    ensures
        s@ == large_sample(i as int),
{
    let dir = String::from_str("uncommitted/");
    if i == 0 {
        dir.concat("webapps.html")
    } else if i == 1 {
        dir.concat("sina.com.cn.html")
    } else {
        dir.concat("wikipedia.html")
    }
}

fn push_round(cases: &mut Vec<BenchCase>, exact_errors: bool, large: bool)
    ensures
        views(final(cases)@) == views(old(cases)@) + round(exact_errors, large),
{
    let ghost base = views(cases@);
    let ghost want = round(exact_errors, large);
    let mut i: usize = 0;
    while i < 3
        invariant
            i <= 3,
            views(cases@) =~= base + want.subrange(0, 2 * i),
            want == round(exact_errors, large),
        decreases 3 - i,
    {
        let ghost before = cases@;
        cases.push(
            BenchCase {
                name: String::from_str(sample_name(i)),
                size: Some(1024),
                clone_only: false,
                exact_errors,
            },
        );
        cases.push(
            BenchCase {
                name: String::from_str(sample_name(i)),
                size: Some(1024 * 1024),
                clone_only: false,
                exact_errors,
            },
        );
        proof {
            let k = 2 * i as int;
            assert(k / 2 == i && k % 2 == 0 && (k + 1) / 2 == i && (k + 1) % 2 == 1);
            assert(cases@ =~= before.push(cases@[cases@.len() - 2]).push(cases@[cases@.len() - 1]));
            assert(cases@[cases@.len() - 2]@ == want[k]);
            assert(cases@[cases@.len() - 1]@ == want[k + 1]);
            assert(views(cases@) =~= views(before).push(want[k]).push(want[k + 1]));
            assert(want.subrange(0, k + 2) =~= want.subrange(0, k).push(want[k]).push(
                want[k + 1],
            ));
        }
        i += 1;
    }
    if large {
        let mut j: usize = 0;
        while j < 3
            invariant
                j <= 3,
                large,
                views(cases@) =~= base + want.subrange(0, 6 + j),
                want == round(exact_errors, large),
            decreases 3 - j,
        {
            let ghost before = cases@;
            cases.push(
                BenchCase {
                    name: large_sample_name(j),
                    size: None,
                    clone_only: false,
                    exact_errors,
                },
            );
            proof {
                let k = 6 + j as int;
                assert(cases@ =~= before.push(cases@[cases@.len() - 1]));
                assert(cases@[cases@.len() - 1]@ == want[k]);
                assert(views(cases@) =~= views(before).push(want[k]));
                assert(want.subrange(0, k + 1) =~= want.subrange(0, k).push(want[k]));
            }
            j += 1;
        }
    }
    assert(views(cases@) =~= base + want);
}

/// Lists the measurements to make. `exact_errors` adds a second round with
/// exact errors; `large` adds the large samples to every round.
pub fn cases(exact_errors: bool, large: bool) -> (list: Vec<BenchCase>)
    ensures
        views(list@) == plan(exact_errors, large),
{
    let mut list: Vec<BenchCase> = Vec::new();
    list.push(
        BenchCase {
            name: String::from_str("lipsum.html"),
            size: Some(1024 * 1024),
            clone_only: true,
            exact_errors: false,
        },
    );
    assert(views(list@) =~= plan(exact_errors, large).subrange(0, 1));
    push_round(&mut list, false, large);
    if exact_errors {
        push_round(&mut list, true, large);
    }
    assert(views(list@) =~= plan(exact_errors, large));
    list
}

} // verus!
