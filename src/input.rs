use vstd::prelude::*;
use vstd::string::*;

verus! {

broadcast use vstd::string::group_string_axioms;

/// One line of the puzzle input: a valve's label, its flow rate, and the
/// labels its tunnels lead to.
#[derive(Debug)]
pub struct Scan {
    pub name: String,
    pub flow_rate: u32,
    pub tunnels: Vec<String>,
}

/// The mathematical value of a line of input.
pub struct ScanView {
    pub name: Seq<char>,
    pub flow_rate: u32,
    pub tunnels: Seq<Seq<char>>,
}

impl View for Scan {
    type V = ScanView;

    open spec fn view(&self) -> ScanView {
        ScanView {
            name: self.name@,
            flow_rate: self.flow_rate,
            tunnels: self.tunnels@.map_values(|t: String| t@),
        }
    }
}

/// The values of parsed lines.
pub open spec fn scans_view(ls: Seq<Scan>) -> Seq<ScanView> {
    ls.map_values(|l: Scan| l@)
}

/// Why the input was refused: the position (in characters) of the first line
/// that is not a valve description.
#[derive(Debug, Clone, Copy, PartialEq, Eq, Structural)]
pub struct ParseError {
    pub at: usize,
}

pub open spec fn ident_start(c: char) -> bool {
    ('a' <= c && c <= 'z') || ('A' <= c && c <= 'Z') || c == '_'
}

pub open spec fn ident_char(c: char) -> bool {
    ident_start(c) || ('0' <= c && c <= '9')
}

pub open spec fn is_digit(c: char) -> bool {
    '0' <= c && c <= '9'
}

/// Where the run of identifier characters (or of digits) that starts at `i`
/// ends.
pub open spec fn run_end(s: Seq<char>, i: int, digits: bool) -> int
    decreases s.len() - i,
{
    if 0 <= i < s.len() && (if digits { is_digit(s[i]) } else { ident_char(s[i]) }) {
        run_end(s, i + 1, digits)
    } else {
        i
    }
}

/// `lit` stands in `s` at `i`.
pub open spec fn has_lit(s: Seq<char>, i: int, lit: Seq<char>) -> bool {
    0 <= i && i + lit.len() <= s.len() && s.subrange(i, i + lit.len()) == lit
}

/// Where the identifier that starts at `i` ends, if one starts there: a
/// letter or underscore, then letters, digits and underscores.
pub open spec fn ident_at(s: Seq<char>, i: int) -> Option<int> {
    if 0 <= i < s.len() && ident_start(s[i]) {
        Some(run_end(s, i + 1, false))
    } else {
        None
    }
}

/// The number that the decimal digits `ds` write.
pub open spec fn dec_value(ds: Seq<char>) -> nat
    decreases ds.len(),
{
    if ds.len() == 0 {
        0
    } else {
        dec_value(ds.drop_last()) * 10 + (ds.last() as nat - '0' as nat) as nat
    }
}

/// The identifiers separated by ", " that start at `i`, and where they end.
pub open spec fn names_at(s: Seq<char>, i: int) -> Option<(Seq<Seq<char>>, int)>
    decreases s.len() - i,
{
    match ident_at(s, i) {
        None => None,
        Some(e) => if e > i && has_lit(s, e, seq![',', ' ']) {
            match names_at(s, e + 2) {
                Some((ns, end)) => Some((seq![s.subrange(i, e)] + ns, end)),
                None => None,
            }
        } else {
            Some((seq![s.subrange(i, e)], e))
        },
    }
}

/// The end of the tunnel phrase at `i`, in its plural or its singular form.
pub open spec fn phrase_at(s: Seq<char>, i: int) -> Option<int> {
    if has_lit(s, i, "; tunnels lead to valves "@) {
        Some(i + "; tunnels lead to valves "@.len())
    } else if has_lit(s, i, "; tunnel leads to valve "@) {
        Some(i + "; tunnel leads to valve "@.len())
    } else {
        None
    }
}

/// The valve line that starts at `i`, and where it ends (after its newline):
/// `Valve <id> has flow rate=<digits>; tunnels lead to valves <id>, <id>`.
pub open spec fn line_at(s: Seq<char>, i: int) -> Option<(ScanView, int)> {
    if !has_lit(s, i, "Valve "@) {
        None
    } else {
        let a = i + "Valve "@.len();
        match ident_at(s, a) {
            None => None,
            Some(b) => if !has_lit(s, b, " has flow rate="@) {
                None
            } else {
                let c = b + " has flow rate="@.len();
                let d = run_end(s, c, true);
                if d == c || dec_value(s.subrange(c, d)) > u32::MAX {
                    None
                } else {
                    match phrase_at(s, d) {
                        None => None,
                        Some(e) => match names_at(s, e) {
                            None => None,
                            Some((ns, f)) => if has_lit(s, f, "\n"@) {
                                Some(
                                    (
                                        ScanView {
                                            name: s.subrange(a, b),
                                            flow_rate: dec_value(s.subrange(c, d)) as u32,
                                            tunnels: ns,
                                        },
                                        f + 1,
                                    ),
                                )
                            } else {
                                None
                            },
                        },
                    }
                }
            },
        }
    }
}

/// The valve lines from `i` to the end of `s`, or the start of the first one
/// that does not parse.
pub open spec fn lines_from(s: Seq<char>, i: int) -> Result<Seq<ScanView>, int>
    decreases s.len() - i,
{
    match line_at(s, i) {
        None => Err(i),
        Some((l, j)) => if j >= s.len() || j <= i {
            Ok(seq![l])
        } else {
            match lines_from(s, j) {
                Ok(ls) => Ok(seq![l] + ls),
                Err(e) => Err(e),
            }
        },
    }
}

} // verus!

verus! {

/// The characters of `s`.
fn chars_of(s: &str) -> (r: Vec<char>)
    ensures
        r@ == s@,
{
    let n = s.unicode_len();
    let mut out: Vec<char> = Vec::new();
    while out.len() < n
        invariant
            n == s@.len(),
            out@.len() <= n,
            out@ == s@.subrange(0, out@.len() as int),
        decreases n - out@.len(),
    {
        let c = s.get_char(out.len());
        out.push(c);
        assert(out@ =~= s@.subrange(0, out@.len() as int));
    }
    assert(out@ =~= s@);
    out
}

/// Whether `lit` stands in `cs` at `i`.
fn lit_at(cs: &Vec<char>, i: usize, lit: &str) -> (r: bool)
    ensures
        r == has_lit(cs@, i as int, lit@),
{
    let n = lit.unicode_len();
    let len = cs.len();
    if i > cs.len() || n > cs.len() - i {
        return false;
    }
    let mut j: usize = 0;
    while j < n
        invariant
            n == lit@.len(),
            i + n <= cs@.len(),
            cs@.len() <= usize::MAX,
            j <= n,
            cs@.subrange(i as int, i + j) == lit@.subrange(0, j as int),
        decreases n - j,
    {
        if cs[i + j] != lit.get_char(j) {
            assert(cs@.subrange(i as int, i + n)[j as int] != lit@[j as int]);
            return false;
        }
        assert(cs@.subrange(i as int, i + j + 1) =~= lit@.subrange(0, j + 1));
        j = j + 1;
    }
    assert(lit@.subrange(0, n as int) =~= lit@);
    true
}

/// Where the run of identifier characters (or of digits) from `i` ends.
fn run_end_of(cs: &Vec<char>, i: usize, digits: bool) -> (r: usize)
    requires
        i <= cs@.len(),
    ensures
        r == run_end(cs@, i as int, digits),
        i <= r <= cs@.len(),
{
    let mut j = i;
    while j < cs.len()
        invariant
            i <= j <= cs@.len(),
            run_end(cs@, i as int, digits) == run_end(cs@, j as int, digits),
        decreases cs@.len() - j,
    {
        let c = cs[j];
        let more = if digits {
            '0' <= c && c <= '9'
        } else {
            ('a' <= c && c <= 'z') || ('A' <= c && c <= 'Z') || c == '_' || ('0' <= c && c <= '9')
        };
        if !more {
            return j;
        }
        j = j + 1;
    }
    j
}

/// Where the identifier starting at `i` ends, if one starts there.
fn ident_end(cs: &Vec<char>, i: usize) -> (r: Option<usize>)
    ensures
        match r {
            Some(e) => ident_at(cs@, i as int) == Some(e as int) && i < e <= cs@.len(),
            None => ident_at(cs@, i as int) is None,
        },
{
    if i >= cs.len() {
        return None;
    }
    let c = cs[i];
    if ('a' <= c && c <= 'z') || ('A' <= c && c <= 'Z') || c == '_' {
        Some(run_end_of(cs, i + 1, false))
    } else {
        None
    }
}

/// Each prefix of a run of digits writes a number no larger than the whole.
proof fn lemma_dec_prefix(s: Seq<char>, c: int, k: int, d: int)
    requires
        0 <= c <= k <= d <= s.len(),
    ensures
        dec_value(s.subrange(c, k)) <= dec_value(s.subrange(c, d)),
    decreases d - k,
{
    if k < d {
        lemma_dec_prefix(s, c, k, d - 1);
        assert(s.subrange(c, d).drop_last() =~= s.subrange(c, d - 1));
    }
}

/// The number that the digits `cs[c..d]` write, unless it exceeds `u32`.
fn dec_of(cs: &Vec<char>, c: usize, d: usize) -> (r: Option<u32>)
    requires
        c <= d <= cs@.len(),
        forall|k: int| c <= k < d ==> is_digit(#[trigger] cs@[k]),
    ensures
        match r {
            Some(v) => dec_value(cs@.subrange(c as int, d as int)) == v,
            None => dec_value(cs@.subrange(c as int, d as int)) > u32::MAX,
        },
{
    let mut acc: u64 = 0;
    let mut k = c;
    while k < d
        invariant
            c <= k <= d <= cs@.len(),
            forall|k: int| c <= k < d ==> is_digit(#[trigger] cs@[k]),
            acc == dec_value(cs@.subrange(c as int, k as int)),
            acc <= u32::MAX,
        decreases d - k,
    {
        let digit = cs[k] as u64 - '0' as u64;
        assert(cs@.subrange(c as int, k + 1).drop_last() =~= cs@.subrange(c as int, k as int));
        acc = acc * 10 + digit;
        k = k + 1;
        if acc > u32::MAX as u64 {
            proof {
                lemma_dec_prefix(cs@, c as int, k as int, d as int);
            }
            return None;
        }
    }
    Some(acc as u32)
}

/// Joins the names read so far to what is read from here on.
pub open spec fn join_names(acc: Seq<Seq<char>>, rest: Option<(Seq<Seq<char>>, int)>) -> Option<(Seq<Seq<char>>, int)> {
    match rest {
        Some((ns, end)) => Some((acc + ns, end)),
        None => None,
    }
}

/// The identifiers separated by ", " that start at `i`, and where they end.
fn names_from(s: &str, cs: &Vec<char>, i: usize) -> (r: Option<(Vec<String>, usize)>)
    requires
        cs@ == s@,
    ensures
        match r {
            Some((ns, e)) => names_at(cs@, i as int) == Some((ns@.map_values(|t: String| t@), e as int))
                && e <= cs@.len(),
            None => names_at(cs@, i as int) is None,
        },
{
    let mut acc: Vec<String> = Vec::new();
    let mut cur = i;
    let len = cs.len();
    loop
        invariant
            cs@ == s@,
            len == cs@.len(),
            names_at(cs@, i as int) == join_names(acc@.map_values(|t: String| t@), names_at(cs@, cur as int)),
        decreases cs@.len() - cur,
    {
        match ident_end(cs, cur) {
            None => {
                return None;
            },
            Some(e) => {
                let name = s.substring_char(cur, e).to_owned();
                let ghost before = acc@.map_values(|t: String| t@);
                acc.push(name);
                assert(acc@.map_values(|t: String| t@) =~= before + seq![cs@.subrange(cur as int, e as int)]);
                if lit_at(cs, e, ", ") {
                    proof {
                        reveal_strlit(", ");
                        assert(", "@ =~= seq![',', ' ']);
                    }
                    let ghost rest = names_at(cs@, e + 2);
                    assert(join_names(before, names_at(cs@, cur as int)) == join_names(
                        acc@.map_values(|t: String| t@),
                        rest,
                    )) by {
                        if let Some((ns, end)) = rest {
                            assert(before + (seq![cs@.subrange(cur as int, e as int)] + ns) =~= acc@.map_values(
                                |t: String| t@,
                            ) + ns);
                        }
                    }
                    cur = e + 2;
                } else {
                    proof {
                        reveal_strlit(", ");
                        assert(", "@ =~= seq![',', ' ']);
                    }
                    return Some((acc, e));
                }
            },
        }
    }
}

} // verus!

verus! {

/// The valve line that starts at `i`, and where it ends.
fn line_from(s: &str, cs: &Vec<char>, i: usize) -> (r: Option<(Scan, usize)>)
    requires
        cs@ == s@,
    ensures
        match r {
            Some((l, j)) => line_at(cs@, i as int) == Some((l@, j as int)) && j <= cs@.len(),
            None => line_at(cs@, i as int) is None,
        },
{
    proof {
        reveal_strlit("Valve ");
        reveal_strlit(" has flow rate=");
        reveal_strlit("; tunnels lead to valves ");
        reveal_strlit("; tunnel leads to valve ");
        reveal_strlit("\n");
    }
    let len = cs.len();
    if !lit_at(cs, i, "Valve ") {
        return None;
    }
    let a = i + 6;
    let b = match ident_end(cs, a) {
        None => {
            return None;
        },
        Some(b) => b,
    };
    if !lit_at(cs, b, " has flow rate=") {
        return None;
    }
    let c = b + 15;
    let d = run_end_of(cs, c, true);
    if d == c {
        return None;
    }
    proof {
        lemma_run_digits(cs@, c as int);
    }
    let flow_rate = match dec_of(cs, c, d) {
        None => {
            return None;
        },
        Some(v) => v,
    };
    let e = if lit_at(cs, d, "; tunnels lead to valves ") {
        d + 25
    } else if lit_at(cs, d, "; tunnel leads to valve ") {
        d + 24
    } else {
        return None;
    };
    assert(phrase_at(cs@, d as int) == Some(e as int));
    let (tunnels, f) = match names_from(s, cs, e) {
        None => {
            return None;
        },
        Some(x) => x,
    };
    if !lit_at(cs, f, "\n") {
        return None;
    }
    let name = s.substring_char(a, b).to_owned();
    Some((Scan { name, flow_rate, tunnels }, f + 1))
}

/// Every character of the run of digits from `i` is a digit.
proof fn lemma_run_digits(s: Seq<char>, i: int)
    requires
        0 <= i <= s.len(),
    ensures
        i <= run_end(s, i, true) <= s.len(),
        forall|k: int| i <= k < run_end(s, i, true) ==> is_digit(#[trigger] s[k]),
    decreases s.len() - i,
{
    if i < s.len() && is_digit(s[i]) {
        lemma_run_digits(s, i + 1);
    }
}

/// Reads the puzzle input: one or more valve lines, each ending in a newline,
/// and nothing else. Fails at the first line that is not a valve line.
pub fn parse(s: &str) -> (r: Result<Vec<Scan>, ParseError>)
    ensures
        match r {
            Ok(ls) => lines_from(s@, 0) == Ok::<Seq<ScanView>, int>(scans_view(ls@)),
            Err(e) => lines_from(s@, 0) == Err::<Seq<ScanView>, int>(e.at as int),
        },
{
    let cs = chars_of(s);
    let mut out: Vec<Scan> = Vec::new();
    let mut i: usize = 0;
    loop
        invariant
            cs@ == s@,
            i <= cs@.len(),
            out@.len() == 0 ==> i == 0,
            lines_from(s@, 0) == match lines_from(s@, i as int) {
                Ok(ls) => Ok(out@.map_values(|l: Scan| l@) + ls),
                Err(e) => Err(e),
            },
        decreases cs@.len() - i,
    {
        match line_from(s, &cs, i) {
            None => {
                return Err(ParseError { at: i });
            },
            Some((l, j)) => {
                let ghost before = out@.map_values(|l: Scan| l@);
                let ghost lv = l@;
                out.push(l);
                assert(out@.map_values(|l: Scan| l@) =~= before.push(lv));
                if j >= cs.len() || j <= i {
                    assert(before + seq![lv] =~= before.push(lv));
                    assert(out@.map_values(|l: Scan| l@) + Seq::<ScanView>::empty() =~= out@.map_values(
                        |l: Scan| l@,
                    ));
                    return Ok(out);
                }
                proof {
                    if let Ok(ls) = lines_from(s@, j as int) {
                        assert(before + (seq![lv] + ls) =~= out@.map_values(|l: Scan| l@) + ls);
                    }
                }
                i = j;
            },
        }
    }
}

} // verus!
