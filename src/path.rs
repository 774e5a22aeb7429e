use vstd::prelude::*;
use vstd::string::StringExecFns;

verus! {

/// One step of a path: a field of a map, or a position in an array
/// (negative positions count from the end).
#[derive(Clone, Debug, PartialEq)]
pub enum Segment {
    Field(String),
    Index(i64),
}

pub enum SegmentView {
    Field(Seq<char>),
    Index(int),
}

impl View for Segment {
    type V = SegmentView;

    open spec fn view(&self) -> SegmentView {
        match self {
            Segment::Field(f) => SegmentView::Field(f@),
            Segment::Index(i) => SegmentView::Index(*i as int),
        }
    }
}

/// A parsed path: the sequence of segments from the root. The empty sequence
/// is the root itself.
#[derive(Clone, Debug, PartialEq)]
pub struct Path {
    segments: Vec<Segment>,
}

impl View for Path {
    type V = Seq<SegmentView>;

    closed spec fn view(&self) -> Seq<SegmentView> {
        self.segments@.map_values(|s: Segment| s@)
    }
}

/// The path could not be parsed; `offset` is the character position at which
/// the offending segment starts.
#[derive(Debug, PartialEq, Eq, Structural)]
pub struct ParseError {
    pub offset: usize,
}

pub open spec fn is_ident_char(c: char) -> bool {
    ('a' <= c && c <= 'z') || ('A' <= c && c <= 'Z') || ('0' <= c && c <= '9') || c == '_' || c
        == '-' || c == '@'
}

pub open spec fn is_digit(c: char) -> bool {
    '0' <= c && c <= '9'
}

/// First position at or after `i` that does not hold an identifier character.
pub open spec fn ident_end(s: Seq<char>, i: int) -> int
    decreases s.len() - i,
{
    if 0 <= i < s.len() && is_ident_char(s[i]) {
        ident_end(s, i + 1)
    } else {
        i
    }
}

/// First position at or after `i` that does not hold a digit.
pub open spec fn digits_end(s: Seq<char>, i: int) -> int
    decreases s.len() - i,
{
    if 0 <= i < s.len() && is_digit(s[i]) {
        digits_end(s, i + 1)
    } else {
        i
    }
}

/// The number written by the digits in `s[i..j]`.
pub open spec fn digits_value(s: Seq<char>, i: int, j: int) -> int
    decreases j - i,
{
    if j <= i {
        0
    } else {
        digits_value(s, i, j - 1) * 10 + (s[j - 1] as int - '0' as int)
    }
}

pub open spec fn max_index() -> int {
    0x7fff_ffff_ffff_ffff
}

/// The content of a quoted name whose text starts at `i` (after the opening
/// quote), with the position after the closing quote; a backslash takes the
/// next character as it is.
pub open spec fn quoted_from(s: Seq<char>, i: int) -> Option<(Seq<char>, int)>
    decreases s.len() - i,
{
    if i < 0 || i >= s.len() {
        None
    } else if s[i] == '"' {
        Some((Seq::<char>::empty(), i + 1))
    } else if s[i] == '\\' {
        if i + 1 >= s.len() {
            None
        } else {
            match quoted_from(s, i + 2) {
                Some((c, e)) => Some((seq![s[i + 1]] + c, e)),
                None => None,
            }
        }
    } else {
        match quoted_from(s, i + 1) {
            Some((c, e)) => Some((seq![s[i]] + c, e)),
            None => None,
        }
    }
}

/// The segment written at `i`, with the position after it: `[n]` or `[-n]`, a
/// quoted name, or an identifier. `field` says whether a name may stand here.
pub open spec fn segment_at(s: Seq<char>, i: int, field: bool) -> Option<(SegmentView, int)> {
    if i < 0 || i >= s.len() {
        None
    } else if s[i] == '[' {
        let neg = i + 1 < s.len() && s[i + 1] == '-';
        let start = if neg {
            i + 2
        } else {
            i + 1
        };
        let end = digits_end(s, start);
        let v = digits_value(s, start, end);
        if end > start && end < s.len() && s[end] == ']' && v <= max_index() {
            Some(
                (
                    SegmentView::Index(
                        if neg {
                            -v
                        } else {
                            v
                        },
                    ),
                    end + 1,
                ),
            )
        } else {
            None
        }
    } else if !field {
        None
    } else if s[i] == '"' {
        match quoted_from(s, i + 1) {
            Some((c, e)) => Some((SegmentView::Field(c), e)),
            None => None,
        }
    } else if ident_end(s, i) > i {
        Some((SegmentView::Field(s.subrange(i, ident_end(s, i))), ident_end(s, i)))
    } else {
        None
    }
}

/// The segments written from `i` on. `need` says that a segment must start
/// at `i` (at the start, or after a dot); otherwise the text may end, go on
/// with an index, or go on with a dot.
pub open spec fn segments_from(s: Seq<char>, i: int, need: bool) -> Option<Seq<SegmentView>>
    decreases s.len() - i,
{
    if i < 0 || i >= s.len() {
        if need || i < 0 {
            None
        } else {
            Some(Seq::<SegmentView>::empty())
        }
    } else if !need && s[i] == '.' {
        segments_from(s, i + 1, true)
    } else {
        match segment_at(s, i, need) {
            Some((seg, j)) => if i < j <= s.len() {
                match segments_from(s, j, false) {
                    Some(rest) => Some(seq![seg] + rest),
                    None => None,
                }
            } else {
                None
            },
            None => None,
        }
    }
}

/// Where reading segments from `i` on fails: the start of the first segment
/// that cannot be read (or the end of the text, where a segment is missing).
pub open spec fn error_offset_from(s: Seq<char>, i: int, need: bool) -> int
    decreases s.len() - i,
{
    if i < 0 || i >= s.len() {
        i
    } else if !need && s[i] == '.' {
        error_offset_from(s, i + 1, true)
    } else {
        match segment_at(s, i, need) {
            Some((seg, j)) => if i < j <= s.len() {
                error_offset_from(s, j, false)
            } else {
                i
            },
            None => i,
        }
    }
}

/// Where a path text that does not parse goes wrong.
pub open spec fn parse_error_offset(s: Seq<char>) -> int {
    if s.len() > 0 && s[0] == '.' {
        error_offset_from(s, 1, true)
    } else {
        error_offset_from(s, 0, true)
    }
}

/// What a path text denotes: `""` and `"."` are the root; otherwise an
/// optional leading dot and one or more segments.
pub open spec fn parse_path(s: Seq<char>) -> Option<Seq<SegmentView>> {
    if s.len() == 0 || s == seq!['.'] {
        Some(Seq::<SegmentView>::empty())
    } else if s[0] == '.' {
        segments_from(s, 1, true)
    } else {
        segments_from(s, 0, true)
    }
}

fn ident_char(c: char) -> (r: bool)
    ensures
        r == is_ident_char(c),
{
    ('a' <= c && c <= 'z') || ('A' <= c && c <= 'Z') || ('0' <= c && c <= '9') || c == '_' || c
        == '-' || c == '@'
}

fn digit_char(c: char) -> (r: bool)
    ensures
        r == is_digit(c),
{
    '0' <= c && c <= '9'
}

fn scan_ident(s: &str, n: usize, i: usize) -> (r: usize)
    requires
        n == s@.len(),
        i <= n,
    ensures
        r == ident_end(s@, i as int),
        i <= r <= n,
{
    let mut j = i;
    while j < n && ident_char(s.get_char(j))
        invariant
            n == s@.len(),
            i <= j <= n,
            ident_end(s@, i as int) == ident_end(s@, j as int),
        decreases n - j,
    {
        j = j + 1;
    }
    j
}

fn scan_digits(s: &str, n: usize, i: usize) -> (r: usize)
    requires
        n == s@.len(),
        i <= n,
    ensures
        r == digits_end(s@, i as int),
        i <= r <= n,
        forall|k: int| i <= k < r ==> is_digit(#[trigger] s@[k]),
{
    let mut j = i;
    while j < n && digit_char(s.get_char(j))
        invariant
            n == s@.len(),
            i <= j <= n,
            digits_end(s@, i as int) == digits_end(s@, j as int),
            forall|k: int| i <= k < j ==> is_digit(#[trigger] s@[k]),
        decreases n - j,
    {
        j = j + 1;
    }
    j
}

proof fn lemma_digits_value_grows(s: Seq<char>, i: int, j: int, k: int)
    requires
        i <= j <= k <= s.len(),
        forall|m: int| i <= m < k ==> is_digit(#[trigger] s[m]),
    ensures
        0 <= digits_value(s, i, j) <= digits_value(s, i, k),
    decreases k - j,
{
    if j < k {
        lemma_digits_value_grows(s, i, j, k - 1);
        lemma_digits_value_grows(s, i, k - 1, k - 1);
    } else {
        lemma_digits_nonneg(s, i, j);
    }
}

proof fn lemma_digits_nonneg(s: Seq<char>, i: int, j: int)
    requires
        i <= j <= s.len(),
        forall|m: int| i <= m < j ==> is_digit(#[trigger] s[m]),
    ensures
        0 <= digits_value(s, i, j),
    decreases j - i,
{
    if j > i {
        lemma_digits_nonneg(s, i, j - 1);
    }
}

/// The number written by the digits in `s[i..j]`, if it is at most the largest `i64`.
fn digits_number(s: &str, n: usize, i: usize, j: usize) -> (r: Option<i64>)
    requires
        n == s@.len(),
        i <= j <= n,
        forall|k: int| i <= k < j ==> is_digit(#[trigger] s@[k]),
    ensures
        match r {
            Some(v) => v as int == digits_value(s@, i as int, j as int) && 0 <= v,
            None => digits_value(s@, i as int, j as int) > max_index(),
        },
{
    let mut v: i64 = 0;
    let mut k = i;
    while k < j
        invariant
            n == s@.len(),
            i <= k <= j <= n,
            forall|m: int| i <= m < j ==> is_digit(#[trigger] s@[m]),
            v as int == digits_value(s@, i as int, k as int),
            0 <= v,
        decreases j - k,
    {
        let c = s.get_char(k);
        let d = (c as u32 - '0' as u32) as i64;
        assert(is_digit(s@[k as int]));
        assert(0 <= d <= 9);
        if v > (0x7fff_ffff_ffff_ffffi64 - d) / 10 {
            proof {
                assert(v * 10 + d > max_index()) by (nonlinear_arith)
                    requires
                        v > (0x7fff_ffff_ffff_ffffi64 - d) / 10,
                        0 <= d <= 9,
                ;
                lemma_digits_value_grows(s@, i as int, k as int + 1, j as int);
            }
            return None;
        }
        assert(v * 10 + d <= max_index()) by (nonlinear_arith)
            requires
                v <= (0x7fff_ffff_ffff_ffffi64 - d) / 10,
                0 <= d <= 9,
                0 <= v,
        ;
        v = v * 10 + d;
        k = k + 1;
    }
    Some(v)
}

/// A one-character string holding `s[i]`.
fn char_string(s: &str, n: usize, i: usize) -> (r: String)
    requires
        n == s@.len(),
        i < n,
    ensures
        r@ == seq![s@[i as int]],
{
    let c = s.substring_char(i, i + 1);
    let r = String::from_str(c);
    assert(r@ =~= seq![s@[i as int]]);
    r
}

fn quoted(s: &str, n: usize, i: usize) -> (r: Option<(String, usize)>)
    requires
        n == s@.len(),
        i <= n,
    ensures
        match r {
            Some((c, e)) => quoted_from(s@, i as int) == Some((c@, e as int)) && e <= n,
            None => quoted_from(s@, i as int) is None,
        },
    decreases n - i,
{
    if i >= n {
        return None;
    }
    let c = s.get_char(i);
    if c == '"' {
        return Some((String::new(), i + 1));
    }
    let (first, next) = if c == '\\' {
        if i + 1 >= n {
            return None;
        }
        (char_string(s, n, i + 1), i + 2)
    } else {
        (char_string(s, n, i), i + 1)
    };
    match quoted(s, n, next) {
        Some((rest, e)) => {
            let mut out = first;
            out.append(rest.as_str());
            Some((out, e))
        },
        None => None,
    }
}

fn segment(s: &str, n: usize, i: usize, field: bool) -> (r: Option<(Segment, usize)>)
    requires
        n == s@.len(),
        i < n,
    ensures
        match r {
            Some((seg, e)) => segment_at(s@, i as int, field) == Some((seg@, e as int)),
            None => segment_at(s@, i as int, field) is None,
        },
{
    let c = s.get_char(i);
    if c == '[' {
        let neg = i + 1 < n && s.get_char(i + 1) == '-';
        let start = if neg {
            i + 2
        } else {
            i + 1
        };
        let end = scan_digits(s, n, start);
        if end > start && end < n && s.get_char(end) == ']' {
            match digits_number(s, n, start, end) {
                Some(v) => {
                    let idx = if neg {
                        -v
                    } else {
                        v
                    };
                    Some((Segment::Index(idx), end + 1))
                },
                None => None,
            }
        } else {
            None
        }
    } else if !field {
        None
    } else if c == '"' {
        match quoted(s, n, i + 1) {
            Some((name, e)) => Some((Segment::Field(name), e)),
            None => None,
        }
    } else {
        let end = scan_ident(s, n, i);
        if end > i {
            let name = String::from_str(s.substring_char(i, end));
            Some((Segment::Field(name), end))
        } else {
            None
        }
    }
}

/// The segments written from `i` on, or the position of the segment that
/// could not be read.
fn segments(s: &str, n: usize, i: usize, need: bool) -> (r: Result<Vec<Segment>, usize>)
    requires
        n == s@.len(),
        i <= n,
    ensures
        match r {
            Ok(v) => segments_from(s@, i as int, need) == Some(
                v@.map_values(|x: Segment| x@),
            ),
            Err(off) => segments_from(s@, i as int, need) is None && off <= n && off
                == error_offset_from(s@, i as int, need),
        },
    decreases n - i,
{
    if i >= n {
        if need {
            return Err(i);
        } else {
            let v: Vec<Segment> = Vec::new();
            assert(v@.map_values(|x: Segment| x@) =~= Seq::<SegmentView>::empty());
            return Ok(v);
        }
    }
    if !need && s.get_char(i) == '.' {
        return segments(s, n, i + 1, true);
    }
    match segment(s, n, i, need) {
        Some((seg, j)) => {
            if i < j && j <= n {
                match segments(s, n, j, false) {
                    Ok(rest) => {
                        let ghost sv = seg@;
                        let mut v = rest;
                        v.insert(0, seg);
                        assert(v@.map_values(|x: Segment| x@) =~= seq![sv] + rest@.map_values(
                            |x: Segment| x@,
                        ));
                        Ok(v)
                    },
                    Err(off) => Err(off),
                }
            } else {
                Err(i)
            }
        },
        None => Err(i),
    }
}

impl Path {
    /// The root path, which denotes the whole record.
    pub fn root() -> (r: Path)
        ensures
            r@ == Seq::<SegmentView>::empty(),
    {
        let r = Path { segments: Vec::new() };
        assert(r@ =~= Seq::<SegmentView>::empty());
        r
    }

    pub fn is_root(&self) -> (r: bool)
        ensures
            r == (self@.len() == 0),
    {
        self.segments.len() == 0
    }

    pub fn len(&self) -> (r: usize)
        ensures
            r == self@.len(),
    {
        self.segments.len()
    }

    pub fn segment(&self, i: usize) -> (r: &Segment)
        requires
            i < self@.len(),
        ensures
            r@ == self@[i as int],
    {
        &self.segments[i]
    }

    /// Reads a path: `""` or `"."` for the root, or an optional leading dot
    /// followed by segments (`a.b`, `a[0]`, `"quoted name"`, `[-1]`).
    pub fn parse(s: &str) -> (r: Result<Path, ParseError>)
        ensures
            match r {
                Ok(p) => parse_path(s@) == Some(p@),
                Err(e) => parse_path(s@) is None && e.offset == parse_error_offset(s@),
            },
    {
        let n = s.unicode_len();
        if n == 0 {
            return Ok(Path::root());
        }
        let lead = s.get_char(0) == '.';
        if lead && n == 1 {
            assert(s@ =~= seq!['.']);
            return Ok(Path::root());
        }
        proof {
            if n > 1 {
                assert(s@.len() != seq!['.'].len());
            }
        }
        let start = if lead {
            1
        } else {
            0
        };
        match segments(s, n, start, true) {
            Ok(segments) => Ok(Path { segments }),
            Err(offset) => Err(ParseError { offset }),
        }
    }
}

pub open spec fn decimal_digit(d: int) -> char {
    seq!['0', '1', '2', '3', '4', '5', '6', '7', '8', '9'][d]
}

/// The decimal digits of `n`.
pub open spec fn decimal(n: nat) -> Seq<char>
    decreases n,
{
    if n < 10 {
        seq![decimal_digit(n as int)]
    } else {
        decimal(n / 10) + seq![decimal_digit((n % 10) as int)]
    }
}

/// A field name that can be written without quotes.
pub open spec fn plain_name(f: Seq<char>) -> bool {
    f.len() > 0 && forall|i: int| 0 <= i < f.len() ==> is_ident_char(#[trigger] f[i])
}

pub open spec fn escape_char(c: char) -> Seq<char> {
    if c == '"' || c == '\\' {
        seq!['\\', c]
    } else {
        seq![c]
    }
}

/// `f` with each quote and backslash preceded by a backslash.
pub open spec fn escaped(f: Seq<char>) -> Seq<char>
    decreases f.len(),
{
    if f.len() == 0 {
        Seq::empty()
    } else {
        escaped(f.drop_last()) + escape_char(f.last())
    }
}

pub open spec fn field_text(f: Seq<char>) -> Seq<char> {
    if plain_name(f) {
        f
    } else {
        seq!['"'] + escaped(f) + seq!['"']
    }
}

pub open spec fn segment_text(s: SegmentView) -> Seq<char> {
    match s {
        SegmentView::Field(f) => field_text(f),
        SegmentView::Index(i) => if i < 0 {
            seq!['[', '-'] + decimal((-i) as nat) + seq![']']
        } else {
            seq!['['] + decimal(i as nat) + seq![']']
        },
    }
}

/// How a path is written: names joined by dots, indices in brackets right
/// after what they index, and nothing for the root.
pub open spec fn path_text(p: Seq<SegmentView>) -> Seq<char>
    decreases p.len(),
{
    if p.len() == 0 {
        Seq::empty()
    } else {
        let sep = if p.len() > 1 && p.last() is Field {
            seq!['.']
        } else {
            Seq::<char>::empty()
        };
        path_text(p.drop_last()) + sep + segment_text(p.last())
    }
}

fn digit_text(d: u64) -> (r: String)
    requires
        d < 10,
    ensures
        r@ == seq![decimal_digit(d as int)],
{
    let digits = "0123456789";
    proof {
        reveal_strlit("0123456789");
    }
    let r = String::from_str(digits.substring_char(d as usize, d as usize + 1));
    assert(r@ =~= seq![decimal_digit(d as int)]);
    r
}

fn decimal_text(n: u64) -> (r: String)
    ensures
        r@ == decimal(n as nat),
    decreases n,
{
    if n < 10 {
        digit_text(n)
    } else {
        let mut s = decimal_text(n / 10);
        let d = digit_text(n % 10);
        s.append(d.as_str());
        s
    }
}

fn field_name_text(f: &String) -> (r: String)
    ensures
        r@ == field_text(f@),
{
    let s = f.as_str();
    let n = s.unicode_len();
    let mut plain = n > 0;
    let mut i: usize = 0;
    while i < n
        invariant
            n == f@.len(),
            s@ == f@,
            i <= n,
            plain == (n > 0 && forall|j: int| 0 <= j < i ==> is_ident_char(#[trigger] f@[j])),
        decreases n - i,
    {
        if !ident_char(s.get_char(i)) {
            plain = false;
        }
        assert(forall|j: int| 0 <= j < i + 1 ==> #[trigger] is_ident_char(f@[j]) <==> (
        0 <= j < i ==> is_ident_char(f@[j])) && (j == i ==> is_ident_char(f@[j])));
        i = i + 1;
    }
    if plain {
        return f.clone();
    }
    let mut out = String::new();
    let mut i: usize = 0;
    assert(f@.subrange(0, 0) =~= Seq::<char>::empty());
    assert(out@ =~= Seq::<char>::empty());
    while i < n
        invariant
            n == f@.len(),
            s@ == f@,
            i <= n,
            out@ == escaped(f@.subrange(0, i as int)),
        decreases n - i,
    {
        let c = s.get_char(i);
        if c == '"' || c == '\\' {
            out.append("\\");
            proof {
                reveal_strlit("\\");
            }
        }
        out.append(s.substring_char(i, i + 1));
        proof {
            let pre = f@.subrange(0, i as int + 1);
            assert(pre.drop_last() =~= f@.subrange(0, i as int));
            assert(pre.last() == c);
        }
        i = i + 1;
        assert(out@ =~= escaped(f@.subrange(0, i as int)));
    }
    assert(f@.subrange(0, n as int) =~= f@);
    let mut quoted = String::from_str("\"");
    proof {
        reveal_strlit("\"");
    }
    quoted.append(out.as_str());
    quoted.append("\"");
    assert(quoted@ =~= seq!['"'] + escaped(f@) + seq!['"']);
    quoted
}

fn segment_text_of(seg: &Segment) -> (r: String)
    ensures
        r@ == segment_text(seg@),
{
    match seg {
        Segment::Field(f) => field_name_text(f),
        Segment::Index(i) => {
            let mut out = String::from_str("[");
            proof {
                reveal_strlit("[");
                reveal_strlit("-");
                reveal_strlit("]");
            }
            let magnitude = if *i < 0 {
                out.append("-");
                (-(*i as i128)) as u64
            } else {
                *i as u64
            };
            let d = decimal_text(magnitude);
            out.append(d.as_str());
            out.append("]");
            if *i < 0 {
                assert(out@ =~= seq!['[', '-'] + decimal((-(*i as int)) as nat) + seq![']']);
            } else {
                assert(out@ =~= seq!['['] + decimal(*i as nat) + seq![']']);
            }
            out
        },
    }
}

impl Path {
    /// The path as it is written, without a leading dot; the root is empty.
    pub fn to_text(&self) -> (r: String)
        ensures
            r@ == path_text(self@),
    {
        let n = self.segments.len();
        let mut out = String::new();
        let mut i: usize = 0;
        assert(self@.subrange(0, 0) =~= Seq::<SegmentView>::empty());
        assert(out@ =~= Seq::<char>::empty());
        while i < n
            invariant
                n == self@.len(),
                i <= n,
                out@ == path_text(self@.subrange(0, i as int)),
            decreases n - i,
        {
            let seg = &self.segments[i];
            let ghost pre = self@.subrange(0, i as int + 1);
            proof {
                assert(pre.drop_last() =~= self@.subrange(0, i as int));
                assert(pre.last() == self@[i as int]);
                assert(self@[i as int] == seg@);
            }
            if i > 0 {
                if let Segment::Field(_) = seg {
                    out.append(".");
                    proof {
                        reveal_strlit(".");
                    }
                }
            }
            let t = segment_text_of(seg);
            out.append(t.as_str());
            i = i + 1;
            assert(out@ =~= path_text(pre));
        }
        assert(self@.subrange(0, n as int) =~= self@);
        out
    }
}

impl Segment {
    /// A copy of this segment.
    pub fn duplicate(&self) -> (r: Segment)
        ensures
            r@ == self@,
    {
        match self {
            Segment::Field(f) => Segment::Field(f.clone()),
            Segment::Index(i) => Segment::Index(*i),
        }
    }
}

impl Path {
    /// A copy of this path.
    pub fn duplicate(&self) -> (r: Path)
        ensures
            r@ == self@,
    {
        let n = self.segments.len();
        let mut segments: Vec<Segment> = Vec::new();
        let mut i: usize = 0;
        while i < n
            invariant
                n == self@.len(),
                i <= n,
                segments@.len() == i,
                forall|j: int| 0 <= j < i ==> (#[trigger] segments@[j])@ == self@[j],
            decreases n - i,
        {
            segments.push(self.segments[i].duplicate());
            i = i + 1;
        }
        let r = Path { segments };
        assert(r@ =~= self@);
        r
    }

    /// This path followed by `seg`.
    pub fn with_segment(&self, seg: Segment) -> (r: Path)
        ensures
            r@ == self@.push(seg@),
    {
        let n = self.segments.len();
        let mut segments: Vec<Segment> = Vec::new();
        let mut i: usize = 0;
        while i < n
            invariant
                n == self@.len(),
                i <= n,
                segments@.len() == i,
                forall|j: int| 0 <= j < i ==> (#[trigger] segments@[j])@ == self@[j],
            decreases n - i,
        {
            segments.push(self.segments[i].duplicate());
            i = i + 1;
        }
        let ghost sv = seg@;
        segments.push(seg);
        let r = Path { segments };
        assert(r@ =~= self@.push(sv));
        r
    }
}

/// What is written before a segment that follows another: a dot before a
/// name, nothing before an index.
pub open spec fn sep_text(s: SegmentView) -> Seq<char> {
    if s is Field {
        seq!['.']
    } else {
        Seq::empty()
    }
}

/// How the segments `r` are written after a first segment.
pub open spec fn tail_text(r: Seq<SegmentView>) -> Seq<char>
    decreases r.len(),
{
    if r.len() == 0 {
        Seq::empty()
    } else {
        sep_text(r[0]) + segment_text(r[0]) + tail_text(r.drop_first())
    }
}

proof fn lemma_tail_text_push(r: Seq<SegmentView>, x: SegmentView)
    ensures
        tail_text(r.push(x)) == tail_text(r) + sep_text(x) + segment_text(x),
    decreases r.len(),
{
    if r.len() == 0 {
        let rx = r.push(x);
        assert(rx.drop_first() =~= Seq::<SegmentView>::empty());
        assert(rx[0] == x);
        assert(tail_text(rx.drop_first()) == Seq::<char>::empty());
        assert(tail_text(r) == Seq::<char>::empty());
        assert(tail_text(rx) =~= tail_text(r) + sep_text(x) + segment_text(x));
    } else {
        assert(r.push(x).drop_first() =~= r.drop_first().push(x));
        lemma_tail_text_push(r.drop_first(), x);
        assert(tail_text(r.push(x)) =~= tail_text(r) + sep_text(x) + segment_text(x));
    }
}

proof fn lemma_path_text_forward(q: Seq<SegmentView>)
    requires
        q.len() > 0,
    ensures
        path_text(q) == segment_text(q[0]) + tail_text(q.drop_first()),
    decreases q.len(),
{
    if q.len() == 1 {
        assert(q.drop_last() =~= Seq::<SegmentView>::empty());
        assert(q.drop_first() =~= Seq::<SegmentView>::empty());
        assert(path_text(q.drop_last()) == Seq::<char>::empty());
        assert(tail_text(q.drop_first()) == Seq::<char>::empty());
        assert(q.last() == q[0]);
        assert(path_text(q) =~= segment_text(q[0]) + tail_text(q.drop_first()));
    } else {
        let d = q.drop_last();
        lemma_path_text_forward(d);
        assert(d[0] == q[0]);
        assert(q.drop_first() =~= d.drop_first().push(q.last()));
        lemma_tail_text_push(d.drop_first(), q.last());
        assert(path_text(q) =~= segment_text(q[0]) + tail_text(q.drop_first()));
    }
}

proof fn lemma_digit(d: int)
    requires
        0 <= d < 10,
    ensures
        is_digit(decimal_digit(d)),
        decimal_digit(d) as int - '0' as int == d,
{
    if d == 0 {
    } else if d == 1 {
    } else if d == 2 {
    } else if d == 3 {
    } else if d == 4 {
    } else if d == 5 {
    } else if d == 6 {
    } else if d == 7 {
    } else if d == 8 {
    } else {
    }
}

proof fn lemma_ident_end(s: Seq<char>, i: int, e: int)
    requires
        0 <= i <= e <= s.len(),
        forall|m: int| i <= m < e ==> is_ident_char(#[trigger] s[m]),
        e == s.len() || !is_ident_char(s[e]),
    ensures
        ident_end(s, i) == e,
    decreases e - i,
{
    if i < e {
        lemma_ident_end(s, i + 1, e);
    }
}

proof fn lemma_digits_end(s: Seq<char>, i: int, e: int)
    requires
        0 <= i <= e <= s.len(),
        forall|m: int| i <= m < e ==> is_digit(#[trigger] s[m]),
        e == s.len() || !is_digit(s[e]),
    ensures
        digits_end(s, i) == e,
    decreases e - i,
{
    if i < e {
        lemma_digits_end(s, i + 1, e);
    }
}

proof fn lemma_decimal_read(s: Seq<char>, a: int, n: nat)
    requires
        0 <= a,
        a + decimal(n).len() <= s.len(),
        s.subrange(a, a + decimal(n).len()) == decimal(n),
    ensures
        decimal(n).len() > 0,
        digits_value(s, a, a + decimal(n).len()) == n,
        forall|m: int| a <= m < a + decimal(n).len() ==> is_digit(#[trigger] s[m]),
    decreases n,
{
    let t = decimal(n);
    if n < 10 {
        lemma_digit(n as int);
        assert(s[a] == t[0]);
        assert(digits_value(s, a, a) == 0);
    } else {
        let h = decimal(n / 10);
        let l = h.len() as int;
        lemma_digit((n % 10) as int);
        assert(t == h + seq![decimal_digit((n % 10) as int)]);
        assert(s.subrange(a, a + l) =~= h) by {
            assert forall|m: int| 0 <= m < l implies s.subrange(a, a + l)[m] == h[m] by {
                assert(s.subrange(a, a + t.len())[m] == t[m]);
            }
        }
        lemma_decimal_read(s, a, n / 10);
        assert(s[a + l] == t[l]) by {
            assert(s.subrange(a, a + t.len())[l] == t[l]);
        }
        assert(digits_value(s, a, a + l + 1) == digits_value(s, a, a + l) * 10 + (s[a + l] as int
            - '0' as int));
        assert((n / 10) * 10 + n % 10 == n) by (nonlinear_arith);
        assert forall|m: int| a <= m < a + t.len() implies is_digit(#[trigger] s[m]) by {
            if m < a + l {
            } else {
                assert(s.subrange(a, a + t.len())[m - a] == t[m - a]);
            }
        }
    }
}

proof fn lemma_escaped_front(c: char, f: Seq<char>)
    ensures
        escaped(seq![c] + f) == escape_char(c) + escaped(f),
    decreases f.len(),
{
    if f.len() == 0 {
        assert(seq![c] + f =~= seq![c]);
        assert(seq![c].drop_last() =~= Seq::<char>::empty());
        assert(escaped(seq![c]) == escaped(seq![c].drop_last()) + escape_char(seq![c].last()));
        assert(escaped(seq![c] + f) =~= escape_char(c) + escaped(f));
    } else {
        lemma_escaped_front(c, f.drop_last());
        assert((seq![c] + f).drop_last() =~= seq![c] + f.drop_last());
        assert((seq![c] + f).last() == f.last());
        let g = seq![c] + f;
        assert(g.len() > 0);
        assert(escaped(g) == escaped(g.drop_last()) + escape_char(g.last()));
        assert(escaped(f) == escaped(f.drop_last()) + escape_char(f.last()));
        assert(escaped(g) =~= escape_char(c) + escaped(f));
    }
}

proof fn lemma_quoted_read(s: Seq<char>, a: int, f: Seq<char>)
    requires
        0 <= a,
        a + escaped(f).len() + 1 <= s.len(),
        s.subrange(a, a + escaped(f).len() + 1) == escaped(f) + seq!['"'],
    ensures
        quoted_from(s, a) == Some((f, a + escaped(f).len() + 1)),
    decreases f.len(),
{
    let t = escaped(f) + seq!['"'];
    if f.len() == 0 {
        assert(escaped(f) == Seq::<char>::empty());
        assert(s[a] == t[0]);
    } else {
        let c = f[0];
        let f2 = f.drop_first();
        assert(f =~= seq![c] + f2);
        lemma_escaped_front(c, f2);
        let k = escape_char(c).len() as int;
        let t2 = escaped(f2) + seq!['"'];
        assert(t =~= escape_char(c) + t2);
        assert(s.subrange(a + k, a + k + t2.len()) =~= t2) by {
            assert forall|m: int| 0 <= m < t2.len() implies s.subrange(a + k, a + k + t2.len())[m]
                == t2[m] by {
                assert(s.subrange(a, a + t.len())[k + m] == t[k + m]);
            }
        }
        lemma_quoted_read(s, a + k, f2);
        assert(s[a] == t[0]) by {
            assert(s.subrange(a, a + t.len())[0] == t[0]);
        }
        if c == '"' || c == '\\' {
            assert(s[a + 1] == t[1]) by {
                assert(s.subrange(a, a + t.len())[1] == t[1]);
            }
            assert(seq![s[a + 1]] + f2 =~= f);
        } else {
            assert(seq![s[a]] + f2 =~= f);
        }
    }
}

/// An index that a path text can hold: its magnitude fits an `i64`.
pub open spec fn writable_index(x: SegmentView) -> bool {
    x is Index ==> -max_index() <= x->Index_0 <= max_index()
}

/// Reads `x` back from its text at `i`, where the text is followed by the end,
/// a dot or a bracket.
proof fn lemma_segment_read(s: Seq<char>, i: int, x: SegmentView, field: bool)
    requires
        0 <= i,
        i + segment_text(x).len() <= s.len(),
        s.subrange(i, i + segment_text(x).len()) == segment_text(x),
        i + segment_text(x).len() == s.len() || s[i + segment_text(x).len()] == '.' || s[i
            + segment_text(x).len()] == '[',
        x is Field ==> field,
        writable_index(x),
    ensures
        segment_text(x).len() > 0,
        segment_at(s, i, field) == Some((x, i + segment_text(x).len())),
{
    let t = segment_text(x);
    let e = i + t.len();
    assert forall|m: int| 0 <= m < t.len() implies s[i + m] == t[m] by {
        assert(s.subrange(i, e)[m] == t[m]);
    }
    match x {
        SegmentView::Field(f) => {
            if plain_name(f) {
                assert(s[i] == f[0]);
                assert forall|m: int| i <= m < e implies is_ident_char(#[trigger] s[m]) by {
                    assert(s[i + (m - i)] == t[m - i]);
                }
                lemma_ident_end(s, i, e);
                assert(s.subrange(i, e) == f);
            } else {
                let q = escaped(f) + seq!['"'];
                assert(t =~= seq!['"'] + q);
                assert(s[i + 0] == t[0]);
                assert(s[i] == '"');
                assert(s.subrange(i + 1, i + 1 + q.len()) =~= q) by {
                    assert forall|m: int| 0 <= m < q.len() implies s.subrange(i + 1, i + 1 + q.len())[m]
                        == q[m] by {
                        assert(s[i + (m + 1)] == t[m + 1]);
                    }
                }
                lemma_quoted_read(s, i + 1, f);
            }
        },
        SegmentView::Index(n) => {
            let neg = n < 0;
            let mag: nat = if neg {
                (-n) as nat
            } else {
                n as nat
            };
            let d = decimal(mag);
            let start = if neg {
                i + 2
            } else {
                i + 1
            };
            if neg {
                assert(t =~= seq!['[', '-'] + d + seq![']']);
            } else {
                assert(t =~= seq!['['] + d + seq![']']);
            }
            assert(s.subrange(start, start + d.len()) =~= d) by {
                assert forall|m: int| 0 <= m < d.len() implies s.subrange(start, start + d.len())[m]
                    == d[m] by {
                    assert(s[i + (start - i + m)] == t[start - i + m]);
                }
            }
            lemma_decimal_read(s, start, mag);
            let end = start + d.len();
            assert(s[end] == ']') by {
                assert(s[i + (end - i)] == t[end - i]);
            }
            lemma_digits_end(s, start, end);
            assert(s[i + 0] == t[0]);
            assert(s[i] == '[');
            if !neg {
                assert(is_digit(s[i + 1]));
            } else {
                assert(s[i + 1] == t[1]);
                assert(s[i + 1] == '-');
            }
        },
    }
}

proof fn lemma_tail_starts(r: Seq<SegmentView>)
    requires
        r.len() > 0,
    ensures
        tail_text(r).len() > 0,
        tail_text(r)[0] == '.' || tail_text(r)[0] == '[',
{
    let x = r[0];
    if x is Index {
        let n = x->Index_0;
        if n < 0 {
            assert(segment_text(x) =~= seq!['[', '-'] + decimal((-n) as nat) + seq![']']);
        } else {
            assert(segment_text(x) =~= seq!['['] + decimal(n as nat) + seq![']']);
        }
        assert(tail_text(r) =~= segment_text(x) + tail_text(r.drop_first()));
    }
}

/// The segments of `r`, written after a first segment, read back as `r`.
proof fn lemma_tail_read(s: Seq<char>, i: int, r: Seq<SegmentView>)
    requires
        0 <= i <= s.len(),
        s.subrange(i, s.len() as int) == tail_text(r),
        forall|j: int| 0 <= j < r.len() ==> writable_index(#[trigger] r[j]),
    ensures
        segments_from(s, i, false) == Some(r),
    decreases r.len(),
{
    let t = tail_text(r);
    if r.len() == 0 {
        assert(s.subrange(i, s.len() as int).len() == 0);
        assert(r =~= Seq::<SegmentView>::empty());
    } else {
        let x = r[0];
        let rest = r.drop_first();
        let st = segment_text(x);
        let sp = sep_text(x);
        assert(t == sp + st + tail_text(rest));
        let b = i + sp.len();
        let e = b + st.len();
        assert(writable_index(r[0]));
        assert forall|m: int| 0 <= m < t.len() implies s[i + m] == t[m] by {
            assert(s.subrange(i, s.len() as int)[m] == t[m]);
        }
        assert(s.subrange(b, e) =~= st) by {
            assert forall|m: int| 0 <= m < st.len() implies s.subrange(b, e)[m] == st[m] by {
                assert(s[i + (sp.len() + m)] == t[sp.len() + m]);
            }
        }
        assert(s.subrange(e, s.len() as int) =~= tail_text(rest)) by {
            assert forall|m: int| 0 <= m < tail_text(rest).len() implies s.subrange(
                e,
                s.len() as int,
            )[m] == tail_text(rest)[m] by {
                assert(s[i + (sp.len() + st.len() + m)] == t[sp.len() + st.len() + m]);
            }
        }
        if rest.len() > 0 {
            lemma_tail_starts(rest);
            assert(s[e] == tail_text(rest)[0]) by {
                assert(s.subrange(e, s.len() as int)[0] == tail_text(rest)[0]);
            }
        }
        assert forall|j: int| 0 <= j < rest.len() implies writable_index(#[trigger] rest[j]) by {
            assert(rest[j] == r[j + 1]);
        }
        lemma_segment_read(s, b, x, x is Field);
        lemma_tail_read(s, e, rest);
        assert(st.len() > 0);
        if x is Field {
            assert(s[i + 0] == t[0]);
            assert(s[i] == '.');
            assert(segments_from(s, b, true) == Some(seq![x] + rest));
            assert(segments_from(s, i, false) == segments_from(s, b, true));
        } else {
            assert(sp.len() == 0);
            assert(s[i + 0] == t[0]);
            assert(s[i] == st[0]);
            assert(st[0] == '[') by {
                let n = x->Index_0;
                if n < 0 {
                    assert(st =~= seq!['[', '-'] + decimal((-n) as nat) + seq![']']);
                } else {
                    assert(st =~= seq!['['] + decimal(n as nat) + seq![']']);
                }
            }
            assert(segments_from(s, i, false) == Some(seq![x] + rest));
        }
        assert(seq![x] + rest =~= r);
    }
}

/// Writing a path that starts with a name and reading the text back gives
/// the same path, where each index fits an `i64` either way round.
pub proof fn lemma_parse_written(q: Seq<SegmentView>)
    requires
        q.len() > 0,
        q[0] is Field,
        forall|j: int| 0 <= j < q.len() ==> writable_index(#[trigger] q[j]),
    ensures
        parse_path(path_text(q)) == Some(q),
{
    lemma_path_text_forward(q);
    let x = q[0];
    let rest = q.drop_first();
    let s = path_text(q);
    let st = segment_text(x);
    assert(s.subrange(0, st.len() as int) =~= st);
    assert(s.subrange(st.len() as int, s.len() as int) =~= tail_text(rest));
    if rest.len() > 0 {
        lemma_tail_starts(rest);
        assert(s[st.len() as int] == tail_text(rest)[0]);
    }
    assert forall|j: int| 0 <= j < rest.len() implies writable_index(#[trigger] rest[j]) by {
        assert(rest[j] == q[j + 1]);
    }
    lemma_segment_read(s, 0, x, true);
    lemma_tail_read(s, st.len() as int, rest);
    let f = x->Field_0;
    assert(s[0] == st[0]);
    if plain_name(f) {
        assert(is_ident_char(f[0]));
    } else {
        assert(st =~= seq!['"'] + escaped(f) + seq!['"']);
    }
    assert(s[0] != '.');
    assert(s != seq!['.']);
    assert(seq![x] + rest =~= q);
}

/// The order of segments among siblings: names by `key_lt`, indices by
/// value, names before indices.
pub open spec fn segment_lt(a: SegmentView, b: SegmentView) -> bool {
    match (a, b) {
        (SegmentView::Field(x), SegmentView::Field(y)) => crate::value::key_lt(x, y),
        (SegmentView::Index(i), SegmentView::Index(j)) => i < j,
        (SegmentView::Field(_), SegmentView::Index(_)) => true,
        _ => false,
    }
}

/// Lexicographic order on paths, segment by segment; a path comes before
/// the paths it is a proper prefix of.
pub open spec fn path_lt(a: Seq<SegmentView>, b: Seq<SegmentView>) -> bool
    decreases a.len(),
{
    if a.len() == 0 || b.len() == 0 {
        a.len() == 0 && b.len() > 0
    } else if a[0] == b[0] {
        path_lt(a.drop_first(), b.drop_first())
    } else {
        segment_lt(a[0], b[0])
    }
}

pub proof fn lemma_path_lt_irreflexive(a: Seq<SegmentView>)
    ensures
        !path_lt(a, a),
    decreases a.len(),
{
    if a.len() > 0 {
        lemma_path_lt_irreflexive(a.drop_first());
    }
}

/// Paths that agree up to a segment are ordered by that segment.
pub proof fn lemma_path_lt_split(
    prefix: Seq<SegmentView>,
    s1: SegmentView,
    a: Seq<SegmentView>,
    s2: SegmentView,
    b: Seq<SegmentView>,
)
    requires
        segment_lt(s1, s2),
    ensures
        path_lt(prefix + (seq![s1] + a), prefix + (seq![s2] + b)),
    decreases prefix.len(),
{
    let x = prefix + (seq![s1] + a);
    let y = prefix + (seq![s2] + b);
    if prefix.len() == 0 {
        assert(x =~= seq![s1] + a);
        assert(y =~= seq![s2] + b);
        if s1 == s2 {
            match s1 {
                SegmentView::Field(f) => crate::value::lemma_key_lt_irreflexive(f),
                _ => {},
            }
        }
    } else {
        lemma_path_lt_split(prefix.drop_first(), s1, a, s2, b);
        assert(x.drop_first() =~= prefix.drop_first() + (seq![s1] + a));
        assert(y.drop_first() =~= prefix.drop_first() + (seq![s2] + b));
        assert(x[0] == y[0]);
    }
}

} // verus!
