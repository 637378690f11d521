use vstd::prelude::*;
use vstd::string::StrSliceExecFns;

verus! {

/// Why an input line was refused.
#[derive(Debug, Clone, Copy, PartialEq, Eq, Structural)]
pub enum Rejection {
    NodeEntry,
    EdgeEntry,
    TravelTime,
    TrainEntry,
    Capacity,
    PackageEntry,
    Weight,
}

/// One line of the interactive front end, read.
#[derive(Debug)]
pub enum Command {
    /// `N,name`
    AddNode(String),
    /// `E,name,station,station,minutes`
    AddEdge(String, String, String, u32),
    /// `T,name,capacity,station`
    AddTrain(String, u32, String),
    /// `P,name,weight,origin,destination`
    AddPackage(String, u32, String, String),
    /// `X`
    Deliver,
    /// `C`
    Clear,
    /// Anything else: show the options.
    Help,
    Invalid(Rejection),
}

/// The characters that `char::is_whitespace` accepts: Unicode's White_Space.
pub open spec fn is_space(c: char) -> bool {
    ||| '\t' <= c <= '\r'
    ||| c == ' '
    ||| c == '\u{85}'
    ||| c == '\u{a0}'
    ||| c == '\u{1680}'
    ||| '\u{2000}' <= c <= '\u{200a}'
    ||| c == '\u{2028}'
    ||| c == '\u{2029}'
    ||| c == '\u{202f}'
    ||| c == '\u{205f}'
    ||| c == '\u{3000}'
}

fn space(c: char) -> (r: bool)
    ensures
        r == is_space(c),
{
    ('\t' <= c && c <= '\r') || c == ' ' || c == '\u{85}' || c == '\u{a0}' || c == '\u{1680}' || ('\u{2000}' <= c
        && c <= '\u{200a}') || c == '\u{2028}' || c == '\u{2029}' || c == '\u{202f}' || c == '\u{205f}' || c
        == '\u{3000}'
}

/// The pieces of `s` between commas.
pub open spec fn split_commas(s: Seq<char>) -> Seq<Seq<char>>
    decreases s.len(),
{
    if s.len() == 0 {
        seq![seq![]]
    } else {
        let f = split_commas(s.drop_last());
        if s.last() == ',' {
            f.push(seq![])
        } else {
            f.update(f.len() - 1, f.last().push(s.last()))
        }
    }
}

pub open spec fn trim_start(s: Seq<char>) -> Seq<char>
    decreases s.len(),
{
    if s.len() > 0 && is_space(s[0]) {
        trim_start(s.drop_first())
    } else {
        s
    }
}

pub open spec fn trim_end(s: Seq<char>) -> Seq<char>
    decreases s.len(),
{
    if s.len() > 0 && is_space(s.last()) {
        trim_end(s.drop_last())
    } else {
        s
    }
}

/// `s` without leading and trailing white space.
pub open spec fn trim(s: Seq<char>) -> Seq<char> {
    trim_end(trim_start(s))
}

/// The comma-separated fields of a line, each trimmed.
pub open spec fn fields(s: Seq<char>) -> Seq<Seq<char>> {
    split_commas(s).map_values(|f: Seq<char>| trim(f))
}

pub open spec fn is_digit(c: char) -> bool {
    '0' <= c <= '9'
}

/// The value of a string of decimal digits.
pub open spec fn digits_value(s: Seq<char>) -> int
    decreases s.len(),
{
    if s.len() == 0 {
        0
    } else {
        digits_value(s.drop_last()) * 10 + (s.last() as int - '0' as int)
    }
}

/// A number's digits: the text after an optional leading `+`.
pub open spec fn unsigned_part(s: Seq<char>) -> Seq<char> {
    if s.len() > 0 && s[0] == '+' {
        s.drop_first()
    } else {
        s
    }
}

pub open spec fn all_digits(d: Seq<char>) -> bool {
    forall|i: int| 0 <= i < d.len() ==> is_digit(#[trigger] d[i])
}

/// What `str::parse::<u32>` gives: an optional `+`, then one or more decimal digits whose value fits.
pub open spec fn number(s: Seq<char>) -> Option<u32> {
    let d = unsigned_part(s);
    if d.len() > 0 && all_digits(d) && digits_value(d) <= u32::MAX {
        Some(digits_value(d) as u32)
    } else {
        None
    }
}

/// The command that a line (already upper-cased) stands for: its first character chooses, its
/// comma-separated, trimmed fields give the values.
pub open spec fn describes(c: Command, s: Seq<char>) -> bool {
    let f = fields(s);
    if s.len() == 0 {
        c is Help
    } else if s[0] == 'N' {
        if f.len() == 2 && f[1].len() > 0 {
            c matches Command::AddNode(n) && n@ == f[1]
        } else {
            c == Command::Invalid(Rejection::NodeEntry)
        }
    } else if s[0] == 'E' {
        if f.len() == 5 && f[1].len() > 0 {
            match number(f[4]) {
                Some(t) => c matches Command::AddEdge(a, b, d, m) && a@ == f[1] && b@ == f[2] && d@ == f[3] && m == t,
                None => c == Command::Invalid(Rejection::TravelTime),
            }
        } else {
            c == Command::Invalid(Rejection::EdgeEntry)
        }
    } else if s[0] == 'T' {
        if f.len() == 4 && f[1].len() > 0 {
            match number(f[2]) {
                Some(w) => c matches Command::AddTrain(a, m, b) && a@ == f[1] && m == w && b@ == f[3],
                None => c == Command::Invalid(Rejection::Capacity),
            }
        } else {
            c == Command::Invalid(Rejection::TrainEntry)
        }
    } else if s[0] == 'P' {
        if f.len() == 5 && f[1].len() > 0 {
            match number(f[2]) {
                Some(w) => c matches Command::AddPackage(a, m, b, d) && a@ == f[1] && m == w && b@ == f[3] && d@ == f[4],
                None => c == Command::Invalid(Rejection::Weight),
            }
        } else {
            c == Command::Invalid(Rejection::PackageEntry)
        }
    } else if s[0] == 'X' {
        c is Deliver
    } else if s[0] == 'C' {
        c is Clear
    } else {
        c is Help
    }
}

/// Upper-case form of a string, as `str::to_uppercase` gives it.
pub uninterp spec fn upper_of(s: Seq<char>) -> Seq<char>;

/// Relies on `str::to_uppercase`: the result depends on the characters alone.
#[verifier::external_body]
fn uppercase(s: &str) -> (r: String)
    ensures
        r@ == upper_of(s@),
{
    s.to_uppercase()
}

proof fn lemma_digits_value_nonneg(d: Seq<char>)
    requires
        forall|i: int| 0 <= i < d.len() ==> is_digit(#[trigger] d[i]),
    ensures
        digits_value(d) >= 0,
    decreases d.len(),
{
    if d.len() > 0 {
        assert(is_digit(d[d.len() - 1]));
        lemma_digits_value_nonneg(d.drop_last());
    }
}

proof fn lemma_digits_value_grows(d: Seq<char>, k: int)
    requires
        0 <= k <= d.len(),
        forall|i: int| 0 <= i < d.len() ==> is_digit(#[trigger] d[i]),
    ensures
        digits_value(d) >= digits_value(d.take(k)),
    decreases d.len() - k,
{
    if k < d.len() {
        lemma_digits_value_grows(d, k + 1);
        assert(d.take(k + 1).drop_last() =~= d.take(k));
        assert(d.take(k + 1).last() == d[k]);
        assert(is_digit(d[k]));
        lemma_digits_value_nonneg(d.take(k));
    } else {
        assert(d.take(k) =~= d);
    }
}

/// Reads a decimal number as `str::parse::<u32>` does.
pub fn parse_number(s: &str) -> (r: Option<u32>)
    ensures
        r == number(s@),
{
    let n = s.unicode_len();
    let start: usize = if n > 0 && s.get_char(0) == '+' {
        1
    } else {
        0
    };
    let ghost d = s@.subrange(start as int, n as int);
    assert(d =~= unsigned_part(s@));
    if start == n {
        return None;
    }
    let mut value: u64 = 0;
    let mut i: usize = start;
    while i < n
        invariant
            n == s@.len(),
            start <= i <= n,
            d == s@.subrange(start as int, n as int),
            d == unsigned_part(s@),
            forall|j: int| 0 <= j < i - start ==> is_digit(#[trigger] d[j]),
            value == digits_value(d.take(i - start)),
            value <= u32::MAX,
        decreases n - i,
    {
        let c = s.get_char(i);
        assert(d[i - start] == c);
        if !('0' <= c && c <= '9') {
            assert(!is_digit(d[i - start]));
            assert(!all_digits(d));
            return None;
        }
        let digit = (c as u32 - '0' as u32) as u64;
        assert(d.take(i - start + 1).drop_last() =~= d.take(i - start));
        value = value * 10 + digit;
        if value > u32::MAX as u64 {
            proof {
                if all_digits(d) {
                    lemma_digits_value_grows(d, i - start + 1);
                }
            }
            return None;
        }
        i = i + 1;
    }
    assert(d.take(d.len() as int) =~= d);
    Some(value as u32)
}

/// The characters from `from` to `to`, without leading and trailing white space.
fn trimmed(s: &str, from: usize, to: usize) -> (r: String)
    requires
        from <= to <= s@.len(),
    ensures
        r@ == trim(s@.subrange(from as int, to as int)),
{
    let mut a = from;
    while a < to && space(s.get_char(a))
        invariant
            from <= a <= to <= s@.len(),
            trim_start(s@.subrange(from as int, to as int)) == trim_start(s@.subrange(a as int, to as int)),
        decreases to - a,
    {
        assert(s@.subrange(a as int, to as int).drop_first() =~= s@.subrange(a + 1, to as int));
        a = a + 1;
    }
    let mut b = to;
    while b > a && space(s.get_char(b - 1))
        invariant
            from <= a <= b <= to <= s@.len(),
            trim_end(s@.subrange(a as int, to as int)) == trim_end(s@.subrange(a as int, b as int)),
        decreases b - a,
    {
        assert(s@.subrange(a as int, b as int).drop_last() =~= s@.subrange(a as int, b - 1));
        b = b - 1;
    }
    s.substring_char(a, b).to_owned()
}

/// The comma-separated fields of a line, each trimmed.
pub fn split_fields(s: &str) -> (r: Vec<String>)
    ensures
        r@.len() == fields(s@).len(),
        forall|k: int| 0 <= k < r@.len() ==> (#[trigger] r@[k])@ == fields(s@)[k],
{
    let n = s.unicode_len();
    let mut out: Vec<String> = Vec::new();
    let mut start: usize = 0;
    let mut i: usize = 0;
    assert(s@.take(0) =~= seq![]);
    while i < n
        invariant
            n == s@.len(),
            start <= i <= n,
            split_commas(s@.take(i as int)).len() == out@.len() + 1,
            forall|k: int| 0 <= k < out@.len() ==> (#[trigger] out@[k])@ == trim(split_commas(s@.take(i as int))[k]),
            split_commas(s@.take(i as int)).last() == s@.subrange(start as int, i as int),
        decreases n - i,
    {
        let ghost before = split_commas(s@.take(i as int));
        assert(s@.take(i + 1).drop_last() =~= s@.take(i as int));
        assert(s@.take(i + 1).last() == s@[i as int]);
        if s.get_char(i) == ',' {
            let piece = trimmed(s, start, i);
            out.push(piece);
            start = i + 1;
            assert(s@.subrange(start as int, i + 1) =~= seq![]);
        } else {
            assert(s@.subrange(start as int, i + 1) =~= s@.subrange(start as int, i as int).push(s@[i as int]));
        }
        i = i + 1;
    }
    let piece = trimmed(s, start, n);
    out.push(piece);
    assert(s@.take(n as int) =~= s@);
    out
}

/// What a line (already upper-cased) asks for.
pub fn read_command(line: &str) -> (r: Command)
    ensures
        describes(r, line@),
{
    let n = line.unicode_len();
    if n == 0 {
        return Command::Help;
    }
    let f = split_fields(line);
    let first = line.get_char(0);
    if first == 'N' {
        if f.len() == 2 && f[1].unicode_len() > 0 {
            Command::AddNode(f[1].clone())
        } else {
            Command::Invalid(Rejection::NodeEntry)
        }
    } else if first == 'E' {
        if f.len() == 5 && f[1].unicode_len() > 0 {
            match parse_number(f[4].as_str()) {
                Some(t) => Command::AddEdge(f[1].clone(), f[2].clone(), f[3].clone(), t),
                None => Command::Invalid(Rejection::TravelTime),
            }
        } else {
            Command::Invalid(Rejection::EdgeEntry)
        }
    } else if first == 'T' {
        if f.len() == 4 && f[1].unicode_len() > 0 {
            match parse_number(f[2].as_str()) {
                Some(w) => Command::AddTrain(f[1].clone(), w, f[3].clone()),
                None => Command::Invalid(Rejection::Capacity),
            }
        } else {
            Command::Invalid(Rejection::TrainEntry)
        }
    } else if first == 'P' {
        if f.len() == 5 && f[1].unicode_len() > 0 {
            match parse_number(f[2].as_str()) {
                Some(w) => Command::AddPackage(f[1].clone(), w, f[3].clone(), f[4].clone()),
                None => Command::Invalid(Rejection::Weight),
            }
        } else {
            Command::Invalid(Rejection::PackageEntry)
        }
    } else if first == 'X' {
        Command::Deliver
    } else if first == 'C' {
        Command::Clear
    } else {
        Command::Help
    }
}

/// What a line of input asks for; letters are read without regard to case.
pub fn parse_command(line: &str) -> (r: Command)
    ensures
        describes(r, upper_of(line@)),
{
    let upper = uppercase(line);
    read_command(upper.as_str())
}

} // verus!
