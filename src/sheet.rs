//! The sheet notation: its data and its parser.

use vstd::prelude::*;

use crate::durations::UNIT;

verus! {

/// A keyboard key, named by the character that it types.
#[derive(Clone, Copy, Debug, PartialEq, Eq, Structural)]
pub struct Key(pub char);

/// One unit of playback.
#[derive(Clone, Debug, PartialEq, Eq)]
pub enum Token {
    /// A space outside a group.
    ShortPause,
    /// A `|`.
    Pause,
    /// A run of blank lines.
    LongPause,
    /// A key pressed and released on its own.
    Single(Key),
    /// A chord: keys pressed together, held, released together.
    Many(Vec<Key>),
    /// An arpeggio: keys pressed and released one after another.
    ManyFast(Vec<Key>),
}

/// A token as a mathematical value.
pub enum TokenView {
    ShortPause,
    Pause,
    LongPause,
    Single(Key),
    Many(Seq<Key>),
    ManyFast(Seq<Key>),
}

impl View for Token {
    type V = TokenView;

    open spec fn view(&self) -> TokenView {
        match self {
            Token::ShortPause => TokenView::ShortPause,
            Token::Pause => TokenView::Pause,
            Token::LongPause => TokenView::LongPause,
            Token::Single(k) => TokenView::Single(*k),
            Token::Many(ks) => TokenView::Many(ks@),
            Token::ManyFast(ks) => TokenView::ManyFast(ks@),
        }
    }
}

/// What the define lines of a sheet said.
#[derive(Clone, Debug, PartialEq, Eq)]
pub struct Header {
    pub title: Option<String>,
    pub writer: Option<String>,
    /// The length of the piece, in microseconds.
    pub length: u64,
}

/// A header as a mathematical value.
pub struct HeaderView {
    pub title: Option<Seq<char>>,
    pub writer: Option<Seq<char>>,
    pub length: int,
}

pub open spec fn opt_string_view(s: Option<String>) -> Option<Seq<char>> {
    match s {
        Some(x) => Some(x@),
        None => None,
    }
}

impl View for Header {
    type V = HeaderView;

    open spec fn view(&self) -> HeaderView {
        HeaderView {
            title: opt_string_view(self.title),
            writer: opt_string_view(self.writer),
            length: self.length as int,
        }
    }
}

/// A parsed sheet: its header and its tokens in order.
#[derive(Clone, Debug, PartialEq, Eq)]
pub struct Sheet {
    pub header: Header,
    pub tokens: Vec<Token>,
}

pub open spec fn tokens_view(ts: Seq<Token>) -> Seq<TokenView> {
    ts.map_values(|t: Token| t@)
}

/// Why a sheet is refused.
#[derive(Clone, Copy, Debug, PartialEq, Eq, Structural)]
pub enum ParseError {
    /// A `]` with no group open on its line.
    GroupCloseWithoutOpen,
    /// A `]` that closes a group with no keys in it.
    GroupCloseMissingPayload,
    /// A define line with no space between name and value.
    MalformedDefineLine,
    /// No `#length` line.
    MissingLengthDefine,
    /// The length has no `:` between minutes and seconds.
    MalformedLengthFormat,
    /// The minutes of the length are not a number.
    MalformedLengthMinutes,
    /// The seconds of the length are not a number.
    MalformedLengthSeconds,
    /// The length does not fit in 64 bits of microseconds.
    LengthOutOfRange,
}

/// The text cut at each `\n`; the last piece is what follows the last `\n`.
pub open spec fn pieces(t: Seq<char>) -> Seq<Seq<char>>
    decreases t.len(),
{
    if t.len() == 0 {
        seq![Seq::empty()]
    } else {
        let p = pieces(t.drop_last());
        if t.last() == '\n' {
            p.push(Seq::empty())
        } else {
            p.update(p.len() - 1, p.last().push(t.last()))
        }
    }
}

/// A line without the `\r` that may end it.
pub open spec fn strip_cr(l: Seq<char>) -> Seq<char> {
    if l.len() > 0 && l.last() == '\r' {
        l.drop_last()
    } else {
        l
    }
}

/// The lines of a text: the pieces between `\n`s, each without the `\r`
/// that may stand before its `\n`. A last piece that no `\n` follows keeps
/// a final `\r`, and is no line at all where it is empty.
pub open spec fn lines_of(t: Seq<char>) -> Seq<Seq<char>> {
    let p = pieces(t);
    let ended = p.drop_last().map_values(|l: Seq<char>| strip_cr(l));
    if p.last().len() == 0 {
        ended
    } else {
        ended.push(p.last())
    }
}

/// The characters of `s`.
fn chars_of(s: &str) -> (r: Vec<char>)
    ensures
        r@ == s@,
{
    let mut r: Vec<char> = Vec::new();
    for c in it: s.chars()
        invariant
            r@ == it.seq().take(it.index() as int),
    {
        r.push(c);
    }
    r
}

/// `v[from..to]` as a vector of its own.
fn copy_range(v: &Vec<char>, from: usize, to: usize) -> (r: Vec<char>)
    requires
        from <= to <= v.len(),
    ensures
        r@ == v@.subrange(from as int, to as int),
{
    let mut r: Vec<char> = Vec::new();
    let mut i = from;
    while i < to
        invariant
            from <= i <= to <= v.len(),
            r@ == v@.subrange(from as int, i as int),
        decreases to - i,
    {
        r.push(v[i]);
        i = i + 1;
    }
    r
}

/// Splits `t` into its lines, as [`lines_of`] says.
fn split_lines(t: &Vec<char>) -> (r: Vec<Vec<char>>)
    ensures
        r@.len() == lines_of(t@).len(),
        forall|i: int| 0 <= i < r@.len() ==> #[trigger] r@[i]@ == lines_of(t@)[i],
{
    let mut done: Vec<Vec<char>> = Vec::new();
    let mut start: usize = 0;
    let mut i: usize = 0;
    while i < t.len()
        invariant
            start <= i <= t.len(),
            pieces(t@.take(i as int)).len() == done@.len() + 1,
            forall|k: int| 0 <= k < done@.len() ==> #[trigger] done@[k]@ == pieces(t@.take(i as int))[k],
            pieces(t@.take(i as int)).last() == t@.subrange(start as int, i as int),
        decreases t.len() - i,
    {
        assert(t@.take(i + 1).drop_last() == t@.take(i as int));
        if t[i] == '\n' {
            let line = copy_range(t, start, i);
            done.push(line);
            start = i + 1;
        }
        i = i + 1;
        assert(t@.subrange(start as int, i as int) =~= pieces(t@.take(i as int)).last());
    }
    assert(t@.take(t.len() as int) == t@);
    let mut r: Vec<Vec<char>> = Vec::new();
    let mut k: usize = 0;
    while k < done.len()
        invariant
            0 <= k <= done.len(),
            r@.len() == k,
            forall|j: int| 0 <= j < k ==> #[trigger] r@[j]@ == strip_cr(done@[j]@),
        decreases done.len() - k,
    {
        let l = &done[k];
        let n = l.len();
        if n > 0 && l[n - 1] == '\r' {
            r.push(copy_range(l, 0, n - 1));
        } else {
            r.push(copy_range(l, 0, n));
        }
        k = k + 1;
    }
    if start < t.len() {
        r.push(copy_range(t, start, t.len()));
    }
    r
}


/// Where the scan of a content line stands.
pub struct LineScan {
    /// The tokens emitted so far.
    pub tokens: Seq<TokenView>,
    /// The keys of the open group, if one is open.
    pub group: Option<Seq<Key>>,
    /// Whether the open group has held a space, which makes it an arpeggio.
    pub fast: bool,
    /// The error that stopped the scan, if any.
    pub error: Option<ParseError>,
}

/// One character of a content line.
///
/// `[` opens a group; it drops a group that is still open and starts afresh.
/// `]` closes the open group as a chord, or as an arpeggio where the group
/// held a space; a group with no keys is an error. `|` is a pause, in a group or out of it. A space in a group
/// makes it an arpeggio; out of a group it is a short pause. Any other
/// character is a key: of the group, if one is open, else a key of its own.
pub open spec fn step_char(s: LineScan, c: char) -> LineScan {
    if s.error is Some {
        s
    } else if c == '[' {
        LineScan { group: Some(Seq::empty()), fast: false, ..s }
    } else if c == ']' {
        match s.group {
            None => LineScan { error: Some(ParseError::GroupCloseWithoutOpen), ..s },
            Some(ks) => if ks.len() == 0 {
                LineScan { error: Some(ParseError::GroupCloseMissingPayload), ..s }
            } else {
                LineScan {
                tokens: s.tokens.push(
                    if s.fast {
                        TokenView::ManyFast(ks)
                    } else {
                        TokenView::Many(ks)
                    },
                ),
                group: None,
                fast: false,
                error: None,
            }
            },
        }
    } else if c == '|' {
        LineScan { tokens: s.tokens.push(TokenView::Pause), ..s }
    } else if c == ' ' {
        if s.group is Some {
            LineScan { fast: true, ..s }
        } else {
            LineScan { tokens: s.tokens.push(TokenView::ShortPause), ..s }
        }
    } else {
        if s.group is Some {
            LineScan { group: Some(s.group->0.push(Key(c))), ..s }
        } else {
            LineScan { tokens: s.tokens.push(TokenView::Single(Key(c))), ..s }
        }
    }
}

/// The scan of a content line, from a state with no tokens and no group.
pub open spec fn scan_line(l: Seq<char>) -> LineScan
    decreases l.len(),
{
    if l.len() == 0 {
        LineScan { tokens: Seq::empty(), group: None, fast: false, error: None }
    } else {
        step_char(scan_line(l.drop_last()), l.last())
    }
}

/// The tokens of a content line, or the error that it holds. A group still
/// open at the end of the line is dropped.
pub open spec fn line_tokens(l: Seq<char>) -> Result<Seq<TokenView>, ParseError> {
    let s = scan_line(l);
    match s.error {
        Some(e) => Err(e),
        None => Ok(s.tokens),
    }
}

pub open spec fn group_view(g: Option<Vec<Key>>) -> Option<Seq<Key>> {
    match g {
        Some(v) => Some(v@),
        None => None,
    }
}

/// Applies one character of a content line to the scan state held in
/// `out`, `group` and `fast`, which stands for `s` after the tokens `base`.
fn apply_char(
    out: &mut Vec<Token>,
    group: &mut Option<Vec<Key>>,
    fast: &mut bool,
    c: char,
    Ghost(base): Ghost<Seq<TokenView>>,
    Ghost(s): Ghost<LineScan>,
) -> (r: Result<(), ParseError>)
    requires
        s.error is None,
        tokens_view(old(out)@) == base + s.tokens,
        group_view(*old(group)) == s.group,
        *old(fast) == s.fast,
    ensures
        r is Err ==> final(out)@ == old(out)@,
        old(out)@.len() <= final(out)@.len(),
        final(out)@.subrange(0, old(out)@.len() as int) == old(out)@,
        match step_char(s, c).error {
            Some(e) => r == Err::<(), ParseError>(e),
            None => {
                &&& r is Ok
                &&& tokens_view(final(out)@) == base + step_char(s, c).tokens
                &&& group_view(*final(group)) == step_char(s, c).group
                &&& *final(fast) == step_char(s, c).fast
            },
        },
{
    let ghost before = out@;
    if c == '[' {
        *group = Some(Vec::new());
        *fast = false;
        return Ok(());
    }
    let t = if c == ']' {
        match group.take() {
            None => {
                return Err(ParseError::GroupCloseWithoutOpen);
            },
            Some(keys) => {
                if keys.len() == 0 {
                    return Err(ParseError::GroupCloseMissingPayload);
                }
                let t = if *fast {
                    Token::ManyFast(keys)
                } else {
                    Token::Many(keys)
                };
                *fast = false;
                t
            },
        }
    } else if c == '|' {
        Token::Pause
    } else if c == ' ' {
        if group.is_some() {
            *fast = true;
            return Ok(());
        }
        Token::ShortPause
    } else {
        match group {
            Some(keys) => {
                keys.push(Key(c));
                return Ok(());
            },
            None => Token::Single(Key(c)),
        }
    };
    proof {
        lemma_view_push(before, t);
    }
    out.push(t);
    assert(out@.subrange(0, before.len() as int) =~= before);
    assert(tokens_view(out@) =~= base + step_char(s, c).tokens);
    Ok(())
}

/// Appends the tokens of the content line `l` to `out`, or returns the error
/// that the line holds.
fn parse_tokens(out: &mut Vec<Token>, l: &Vec<char>) -> (r: Result<(), ParseError>)
    ensures
        match line_tokens(l@) {
            Ok(ts) => r is Ok && tokens_view(final(out)@) == tokens_view(old(out)@) + ts,
            Err(e) => r == Err::<(), ParseError>(e),
        },
        old(out)@.len() <= final(out)@.len(),
        final(out)@.subrange(0, old(out)@.len() as int) == old(out)@,
{
    let ghost base = tokens_view(out@);
    let ghost start = out@;
    let mut in_fast = false;
    let mut group: Option<Vec<Key>> = None;
    let mut i: usize = 0;
    assert(base + scan_line(l@.take(0)).tokens =~= base);
    while i < l.len()
        invariant
            i <= l.len(),
            scan_line(l@.take(i as int)).error is None,
            tokens_view(out@) == base + scan_line(l@.take(i as int)).tokens,
            group_view(group) == scan_line(l@.take(i as int)).group,
            in_fast == scan_line(l@.take(i as int)).fast,
            start == old(out)@,
            start.len() <= out@.len(),
            out@.subrange(0, start.len() as int) == start,
        decreases l.len() - i,
    {
        let c = l[i];
        assert(l@.take(i + 1).drop_last() == l@.take(i as int));
        assert(l@.take(i + 1).last() == c);
        let ghost prev = scan_line(l@.take(i as int));
        assert(scan_line(l@.take(i + 1)) == step_char(prev, c));
        let ghost before = out@;
        let step = apply_char(out, &mut group, &mut in_fast, c, Ghost(base), Ghost(prev));
        proof {
            assert(out@.subrange(0, start.len() as int) =~= out@.subrange(0, before.len() as int).subrange(0, start.len() as int));
        }
        if let Err(e) = step {
            proof {
                lemma_scan_error_stays(l@, i as int + 1);
                assert(l@.take(l.len() as int) == l@);
            }
            return Err(e);
        }
        i = i + 1;
    }
    assert(l@.take(l.len() as int) == l@);
    Ok(())
}

proof fn lemma_view_push(ts: Seq<Token>, t: Token)
    ensures
        tokens_view(ts.push(t)) == tokens_view(ts).push(t@),
{
    assert(tokens_view(ts.push(t)) =~= tokens_view(ts).push(t@));
}

/// Once a line's scan has failed, the rest of the line leaves it as it is.
proof fn lemma_scan_error_stays(l: Seq<char>, i: int)
    requires
        0 <= i <= l.len(),
        scan_line(l.take(i)).error is Some,
    ensures
        scan_line(l) == scan_line(l.take(i)),
    decreases l.len() - i,
{
    if i < l.len() {
        assert(l.take(i + 1).drop_last() == l.take(i));
        lemma_scan_error_stays(l, i + 1);
    } else {
        assert(l.take(i) == l);
    }
}


/// `i` is the first place of `c` in `s`.
pub open spec fn is_first(s: Seq<char>, c: char, i: int) -> bool {
    &&& 0 <= i < s.len()
    &&& s[i] == c
    &&& forall|k: int| 0 <= k < i ==> s[k] != c
}

/// The first place of `c` in `s`, if `c` is there.
pub open spec fn first_index(s: Seq<char>, c: char) -> Option<int> {
    if exists|i: int| is_first(s, c, i) {
        Some(choose|i: int| is_first(s, c, i))
    } else {
        None
    }
}

/// Finds the first place of `c` in `s`.
fn find_char(s: &Vec<char>, c: char) -> (r: Option<usize>)
    ensures
        match r {
            Some(i) => i < s.len() && first_index(s@, c) == Some(i as int),
            None => first_index(s@, c) is None,
        },
{
    let mut i: usize = 0;
    while i < s.len()
        invariant
            i <= s.len(),
            forall|k: int| 0 <= k < i ==> s@[k] != c,
        decreases s.len() - i,
    {
        if s[i] == c {
            assert(is_first(s@, c, i as int));
            let ghost j = choose|j: int| is_first(s@, c, j);
            assert(j == i);
            return Some(i);
        }
        i = i + 1;
    }
    assert(!exists|j: int| is_first(s@, c, j));
    None
}

/// Whether `a` and `b` hold the same characters.
fn same_chars(a: &Vec<char>, b: &Vec<char>) -> (r: bool)
    ensures
        r == (a@ == b@),
{
    if a.len() != b.len() {
        return false;
    }
    let mut i: usize = 0;
    while i < a.len()
        invariant
            i <= a.len() == b.len(),
            forall|k: int| 0 <= k < i ==> a@[k] == b@[k],
        decreases a.len() - i,
    {
        if a[i] != b[i] {
            return false;
        }
        i = i + 1;
    }
    assert(a@ =~= b@);
    true
}

pub open spec fn length_name() -> Seq<char> {
    seq!['#', 'l', 'e', 'n', 'g', 't', 'h']
}

pub open spec fn title_name() -> Seq<char> {
    seq!['#', 't', 'i', 't', 'l', 'e']
}

pub open spec fn writer_name() -> Seq<char> {
    seq!['#', 'w', 'r', 'i', 't', 'e', 'r']
}

/// Where the scan of a sheet's lines stands.
pub struct SheetScan {
    /// The tokens emitted so far.
    pub tokens: Seq<TokenView>,
    /// Whether the last line was blank.
    pub last_empty: bool,
    /// The last value given to `#title`, `#writer` and `#length`.
    pub title: Option<Seq<char>>,
    pub writer: Option<Seq<char>>,
    pub length: Option<Seq<char>>,
    /// The error that stopped the scan, if any.
    pub error: Option<ParseError>,
}

/// A define line `name value` recorded; a later one of a name replaces an
/// earlier one, and a name other than `#length`, `#title` and `#writer` is
/// kept by nobody.
pub open spec fn record_define(s: SheetScan, name: Seq<char>, value: Seq<char>) -> SheetScan {
    if name == length_name() {
        SheetScan { length: Some(value), ..s }
    } else if name == title_name() {
        SheetScan { title: Some(value), ..s }
    } else if name == writer_name() {
        SheetScan { writer: Some(value), ..s }
    } else {
        s
    }
}

/// One line of a sheet.
///
/// A blank line is a long pause, unless the line before it was blank too. A
/// line that starts with `#` is a define: a name, a space and a value. Any
/// other line is a content line.
pub open spec fn step_line(s: SheetScan, l: Seq<char>) -> SheetScan {
    if s.error is Some {
        s
    } else if l.len() == 0 {
        SheetScan {
            tokens: if s.last_empty {
                s.tokens
            } else {
                s.tokens.push(TokenView::LongPause)
            },
            last_empty: true,
            ..s
        }
    } else if l[0] == '#' {
        match first_index(l, ' ') {
            None => SheetScan {
                last_empty: false,
                error: Some(ParseError::MalformedDefineLine),
                ..s
            },
            Some(j) => record_define(SheetScan { last_empty: false, ..s }, l.take(j), l.skip(j + 1)),
        }
    } else {
        match line_tokens(l) {
            Err(e) => SheetScan { last_empty: false, error: Some(e), ..s },
            Ok(ts) => SheetScan { tokens: s.tokens + ts, last_empty: false, ..s },
        }
    }
}

/// The scan of a sequence of lines, from nothing.
pub open spec fn scan_lines(ls: Seq<Seq<char>>) -> SheetScan
    decreases ls.len(),
{
    if ls.len() == 0 {
        SheetScan {
            tokens: Seq::empty(),
            last_empty: false,
            title: None,
            writer: None,
            length: None,
            error: None,
        }
    } else {
        step_line(scan_lines(ls.drop_last()), ls.last())
    }
}

pub open spec fn opt_chars_view(v: Option<Vec<char>>) -> Option<Seq<char>> {
    match v {
        Some(x) => Some(x@),
        None => None,
    }
}

/// The state of a sheet's scan while no error has come.
struct ScanState {
    tokens: Vec<Token>,
    last_empty: bool,
    title: Option<Vec<char>>,
    writer: Option<Vec<char>>,
    length: Option<Vec<char>>,
}

impl View for ScanState {
    type V = SheetScan;

    closed spec fn view(&self) -> SheetScan {
        SheetScan {
            tokens: tokens_view(self.tokens@),
            last_empty: self.last_empty,
            title: opt_chars_view(self.title),
            writer: opt_chars_view(self.writer),
            length: opt_chars_view(self.length),
            error: None,
        }
    }
}

/// Applies one line of a sheet to `st`.
fn apply_line(st: &mut ScanState, l: &Vec<char>) -> (r: Result<(), ParseError>)
    ensures
        match step_line(old(st)@, l@).error {
            Some(e) => r == Err::<(), ParseError>(e),
            None => r is Ok && final(st)@ == step_line(old(st)@, l@),
        },
{
    if l.len() == 0 {
        if !st.last_empty {
            proof {
                lemma_view_push(st.tokens@, Token::LongPause);
            }
            st.tokens.push(Token::LongPause);
        }
        st.last_empty = true;
        return Ok(());
    }
    st.last_empty = false;
    if l[0] == '#' {
        match find_char(l, ' ') {
            None => {
                return Err(ParseError::MalformedDefineLine);
            },
            Some(j) => {
                let name = copy_range(l, 0, j);
                let value = copy_range(l, j + 1, l.len());
                assert(name@ == l@.take(j as int));
                assert(value@ == l@.skip(j + 1));
                if same_chars(&name, &vec!['#', 'l', 'e', 'n', 'g', 't', 'h']) {
                    st.length = Some(value);
                } else if same_chars(&name, &vec!['#', 't', 'i', 't', 'l', 'e']) {
                    st.title = Some(value);
                } else if same_chars(&name, &vec!['#', 'w', 'r', 'i', 't', 'e', 'r']) {
                    st.writer = Some(value);
                }
                return Ok(());
            },
        }
    }
    parse_tokens(&mut st.tokens, l)
}


pub open spec fn is_digit(c: char) -> bool {
    '0' <= c <= '9'
}

pub open spec fn all_digits(s: Seq<char>) -> bool {
    forall|i: int| 0 <= i < s.len() ==> is_digit(#[trigger] s[i])
}

/// The number that a string of decimal digits writes.
pub open spec fn digits_value(s: Seq<char>) -> int
    decreases s.len(),
{
    if s.len() == 0 {
        0
    } else {
        digits_value(s.drop_last()) * 10 + (s.last() as int - '0' as int)
    }
}

/// A fraction's digits to six places: cut after the sixth, or filled up
/// with zeros. Cutting rounds the fraction down to a whole millionth.
pub open spec fn six_places(f: Seq<char>) -> Seq<char> {
    if f.len() >= 6 {
        f.take(6)
    } else {
        f + Seq::new((6 - f.len()) as nat, |i: int| '0')
    }
}

/// A numeral without its sign: decimal digits, then perhaps a `.` and more
/// digits, with at least one digit in all. Its value is in millionths,
/// rounded down.
pub open spec fn unsigned_micros(s: Seq<char>) -> Option<int> {
    match first_index(s, '.') {
        None => if s.len() > 0 && all_digits(s) {
            Some(digits_value(s) * UNIT)
        } else {
            None
        },
        Some(p) => {
            let w = s.take(p);
            let f = s.skip(p + 1);
            if all_digits(w) && all_digits(f) && w.len() + f.len() > 0 {
                Some(digits_value(w) * UNIT + digits_value(six_places(f)))
            } else {
                None
            }
        },
    }
}

/// The value of a numeral in millionths, rounded down: an unsigned numeral,
/// perhaps after a `+`.
pub open spec fn numeral_micros(s: Seq<char>) -> Option<int> {
    if s.len() > 0 && s[0] == '+' {
        unsigned_micros(s.skip(1))
    } else {
        unsigned_micros(s)
    }
}

/// The length that the value of `#length` gives, in microseconds:
/// `minutes:seconds`, each a numeral.
pub open spec fn length_micros(v: Seq<char>) -> Result<int, ParseError> {
    match first_index(v, ':') {
        None => Err(ParseError::MalformedLengthFormat),
        Some(j) => match numeral_micros(v.take(j)) {
            None => Err(ParseError::MalformedLengthMinutes),
            Some(m) => match numeral_micros(v.skip(j + 1)) {
                None => Err(ParseError::MalformedLengthSeconds),
                Some(sec) => if 60 * m + sec > u64::MAX {
                    Err(ParseError::LengthOutOfRange)
                } else {
                    Ok(60 * m + sec)
                },
            },
        },
    }
}

/// What a numeral is, as far as 64 bits can hold it.
enum Numeral {
    Malformed,
    TooLarge,
    Micros(u64),
}

proof fn lemma_digits_value_nonneg(s: Seq<char>)
    requires
        all_digits(s),
    ensures
        digits_value(s) >= 0,
    decreases s.len(),
{
    if s.len() > 0 {
        assert(all_digits(s.drop_last()));
        assert(is_digit(s[s.len() - 1]));
        lemma_digits_value_nonneg(s.drop_last());
    }
}

/// The number that the digits `s` write, if it fits in 64 bits.
fn digits_checked(s: &Vec<char>) -> (r: Option<u64>)
    requires
        all_digits(s@),
    ensures
        match r {
            Some(v) => v == digits_value(s@),
            None => digits_value(s@) > u64::MAX,
        },
{
    let mut acc: u64 = 0;
    let mut i: usize = 0;
    while i < s.len()
        invariant
            i <= s.len(),
            all_digits(s@),
            acc == digits_value(s@.take(i as int)),
        decreases s.len() - i,
    {
        assert(s@.take(i + 1).drop_last() == s@.take(i as int));
        assert(is_digit(s@[i as int]));
        let d = (s[i] as u32 - '0' as u32) as u64;
        if acc > (u64::MAX - d) / 10 {
            proof {
                lemma_digits_grow(s@, i as int + 1);
            }
            return None;
        }
        acc = acc * 10 + d;
        i = i + 1;
    }
    assert(s@.take(s.len() as int) == s@);
    Some(acc)
}

/// A numeral's value only grows as digits are added to it.
proof fn lemma_digits_grow(s: Seq<char>, i: int)
    requires
        all_digits(s),
        0 <= i <= s.len(),
    ensures
        digits_value(s.take(i)) <= digits_value(s),
    decreases s.len() - i,
{
    if i < s.len() {
        lemma_digits_grow(s, i + 1);
        assert(s.take(i + 1).drop_last() == s.take(i));
        assert(all_digits(s.take(i)));
        lemma_digits_value_nonneg(s.take(i));
        assert(is_digit(s[i]));
    } else {
        assert(s.take(i) == s);
    }
}

/// Whether every character of `s` is a decimal digit.
fn check_digits(s: &Vec<char>) -> (r: bool)
    ensures
        r == all_digits(s@),
{
    let mut i: usize = 0;
    while i < s.len()
        invariant
            i <= s.len(),
            forall|k: int| 0 <= k < i ==> is_digit(#[trigger] s@[k]),
        decreases s.len() - i,
    {
        if !('0' <= s[i] && s[i] <= '9') {
            return false;
        }
        i = i + 1;
    }
    true
}

/// Reads a numeral, as [`numeral_micros`] says.
fn parse_numeral(s: &Vec<char>) -> (r: Numeral)
    ensures
        match numeral_micros(s@) {
            None => r is Malformed,
            Some(v) => if v > u64::MAX {
                r is TooLarge
            } else {
                r == Numeral::Micros(v as u64)
            },
        },
{
    if s.len() > 0 && s[0] == '+' {
        let rest = copy_range(s, 1, s.len());
        assert(rest@ == s@.skip(1));
        parse_unsigned(&rest)
    } else {
        parse_unsigned(s)
    }
}

/// Reads a numeral without its sign, as [`unsigned_micros`] says.
fn parse_unsigned(s: &Vec<char>) -> (r: Numeral)
    ensures
        match unsigned_micros(s@) {
            None => r is Malformed,
            Some(v) => if v > u64::MAX {
                r is TooLarge
            } else {
                r == Numeral::Micros(v as u64)
            },
        },
{
    let (whole, frac) = match find_char(s, '.') {
        None => {
            if s.len() == 0 || !check_digits(s) {
                return Numeral::Malformed;
            }
            (copy_range(s, 0, s.len()), Vec::new())
        },
        Some(p) => {
            let w = copy_range(s, 0, p);
            let f = copy_range(s, p + 1, s.len());
            assert(w@ == s@.take(p as int));
            assert(f@ == s@.skip(p + 1));
            if !check_digits(&w) || !check_digits(&f) || w.len() + f.len() == 0 {
                return Numeral::Malformed;
            }
            (w, f)
        },
    };
    let ghost f = frac@;
    let padded = if frac.len() >= 6 {
        let cut = copy_range(&frac, 0, 6);
        assert(cut@ == f.take(6));
        cut
    } else {
        let mut padded = frac;
        while padded.len() < 6
            invariant
                f.len() <= padded.len() <= 6,
                all_digits(f),
                padded@ == f + Seq::new((padded.len() - f.len()) as nat, |i: int| '0'),
            decreases 6 - padded.len(),
        {
            padded.push('0');
            assert(padded@ =~= f + Seq::new((padded.len() - f.len()) as nat, |i: int| '0'));
        }
        padded
    };
    assert(padded@ =~= six_places(f));
    assert(all_digits(padded@));
    assert(s@.take(s.len() as int) == s@);
    assert(f.len() == 0 ==> digits_value(six_places(f)) == 0) by {
        if f.len() == 0 {
            lemma_zeros_value(6);
            assert(six_places(f) =~= Seq::new(6, |i: int| '0'));
        }
    }
    proof {
        lemma_digits_value_nonneg(whole@);
        lemma_digits_value_nonneg(padded@);
    }
    let w = match digits_checked(&whole) {
        None => {
            return Numeral::TooLarge;
        },
        Some(w) => w,
    };
    let p = match digits_checked(&padded) {
        None => {
            return Numeral::TooLarge;
        },
        Some(p) => p,
    };
    match w.checked_mul(UNIT) {
        None => Numeral::TooLarge,
        Some(wm) => match wm.checked_add(p) {
            None => Numeral::TooLarge,
            Some(v) => Numeral::Micros(v),
        },
    }
}

/// A string of zeros writes zero.
proof fn lemma_zeros_value(n: nat)
    ensures
        digits_value(Seq::new(n, |i: int| '0')) == 0,
    decreases n,
{
    if n > 0 {
        assert(Seq::new(n, |i: int| '0').drop_last() =~= Seq::new((n - 1) as nat, |i: int| '0'));
        lemma_zeros_value((n - 1) as nat);
    }
}

/// Reads the value of `#length`, as [`length_micros`] says.
fn parse_length(v: &Vec<char>) -> (r: Result<u64, ParseError>)
    ensures
        r is Ok <==> length_micros(v@) is Ok,
        r matches Ok(n) ==> length_micros(v@) == Ok::<int, ParseError>(n as int),
        r matches Err(e) ==> length_micros(v@) == Err::<int, ParseError>(e),
{
    let j = match find_char(v, ':') {
        None => {
            return Err(ParseError::MalformedLengthFormat);
        },
        Some(j) => j,
    };
    let mins = copy_range(v, 0, j);
    let secs = copy_range(v, j + 1, v.len());
    assert(mins@ == v@.take(j as int));
    assert(secs@ == v@.skip(j + 1));
    proof {
        lemma_digits_value_nonneg_numeral(mins@);
        lemma_digits_value_nonneg_numeral(secs@);
    }
    let m = match parse_numeral(&mins) {
        Numeral::Malformed => {
            return Err(ParseError::MalformedLengthMinutes);
        },
        Numeral::TooLarge => None,
        Numeral::Micros(m) => Some(m),
    };
    let sc = match parse_numeral(&secs) {
        Numeral::Malformed => {
            return Err(ParseError::MalformedLengthSeconds);
        },
        Numeral::TooLarge => None,
        Numeral::Micros(sc) => Some(sc),
    };
    match m {
        Some(m) => match sc {
            Some(sc) => {
                let total: u128 = 60 * (m as u128) + sc as u128;
                if total > u64::MAX as u128 {
                    Err(ParseError::LengthOutOfRange)
                } else {
                    Ok(total as u64)
                }
            },
            None => Err(ParseError::LengthOutOfRange),
        },
        None => Err(ParseError::LengthOutOfRange),
    }
}

/// A numeral's value is never negative.
proof fn lemma_digits_value_nonneg_numeral(s: Seq<char>)
    ensures
        numeral_micros(s) matches Some(v) ==> v >= 0,
{
    lemma_unsigned_micros_nonneg(s);
    if s.len() > 0 {
        lemma_unsigned_micros_nonneg(s.skip(1));
    }
}

/// An unsigned numeral's value is never negative.
proof fn lemma_unsigned_micros_nonneg(s: Seq<char>)
    ensures
        unsigned_micros(s) matches Some(v) ==> v >= 0,
{
    match first_index(s, '.') {
        None => {
            if s.len() > 0 && all_digits(s) {
                lemma_digits_value_nonneg(s);
            }
        },
        Some(p) => {
            let w = s.take(p);
            let f = s.skip(p + 1);
            if all_digits(w) && all_digits(f) && w.len() + f.len() > 0 {
                lemma_digits_value_nonneg(w);
                assert(all_digits(six_places(f)));
                lemma_digits_value_nonneg(six_places(f));
            }
        },
    }
}


/// What a text parses to: its header and its tokens, or the first error.
pub open spec fn parse_spec(t: Seq<char>) -> Result<(HeaderView, Seq<TokenView>), ParseError> {
    let s = scan_lines(lines_of(t));
    match s.error {
        Some(e) => Err(e),
        None => match s.length {
            None => Err(ParseError::MissingLengthDefine),
            Some(v) => match length_micros(v) {
                Err(e) => Err(e),
                Ok(n) => Ok((HeaderView { title: s.title, writer: s.writer, length: n }, s.tokens)),
            },
        },
    }
}

/// Relies on `String::push`: it appends the character to the string.
#[verifier::external_body]
fn push_char(s: &mut String, c: char)
    ensures
        final(s)@ == old(s)@.push(c),
{
    s.push(c);
}

/// The characters of `v` as a string.
fn string_of(v: &Vec<char>) -> (r: String)
    ensures
        r@ == v@,
{
    let mut r = String::new();
    let mut i: usize = 0;
    while i < v.len()
        invariant
            i <= v.len(),
            r@ == v@.take(i as int),
        decreases v.len() - i,
    {
        push_char(&mut r, v[i]);
        i = i + 1;
        assert(r@ =~= v@.take(i as int));
    }
    assert(v@.take(v.len() as int) == v@);
    r
}

fn opt_string_of(v: &Option<Vec<char>>) -> (r: Option<String>)
    ensures
        opt_string_view(r) == opt_chars_view(*v),
{
    match v {
        Some(x) => Some(string_of(x)),
        None => None,
    }
}

/// Parses a sheet.
///
/// Blank lines are long pauses, a run of them one; lines that start with `#`
/// define `#length` (required, `minutes:seconds`), `#title` and `#writer`;
/// every other line holds keys, groups and pauses (see [`step_char`]).
pub fn parse_sheet(input: &str) -> (r: Result<Sheet, ParseError>)
    ensures
        match parse_spec(input@) {
            Ok((h, ts)) => r matches Ok(sheet) && sheet.header@ == h && tokens_view(sheet.tokens@)
                == ts,
            Err(e) => r == Err::<Sheet, ParseError>(e),
        },
{
    let chars = chars_of(input);
    let lines = split_lines(&chars);
    let ghost ls = lines_of(input@);
    let mut st = ScanState {
        tokens: Vec::new(),
        last_empty: false,
        title: None,
        writer: None,
        length: None,
    };
    assert(tokens_view(st.tokens@) =~= Seq::empty());
    assert(st@ == scan_lines(ls.take(0)));
    let mut k: usize = 0;
    while k < lines.len()
        invariant
            ls == lines_of(input@),
            k <= lines.len() == ls.len(),
            forall|i: int| 0 <= i < lines@.len() ==> #[trigger] lines@[i]@ == ls[i],
            st@ == scan_lines(ls.take(k as int)),
        decreases lines.len() - k,
    {
        assert(ls.take(k + 1).drop_last() == ls.take(k as int));
        assert(lines@[k as int]@ == ls[k as int]);
        assert(scan_lines(ls.take(k + 1)) == step_line(st@, ls[k as int]));
        let ghost prev = st@;
        let step = apply_line(&mut st, &lines[k]);
        if let Err(e) = step {
            proof {
                lemma_lines_error_stays(ls, k as int + 1);
                assert(ls.take(ls.len() as int) == ls);
            }
            return Err(e);
        }
        k = k + 1;
    }
    assert(ls.take(ls.len() as int) == ls);
    let length = match &st.length {
        None => {
            return Err(ParseError::MissingLengthDefine);
        },
        Some(v) => match parse_length(v) {
            Err(e) => {
                return Err(e);
            },
            Ok(n) => n,
        },
    };
    let header = Header {
        title: opt_string_of(&st.title),
        writer: opt_string_of(&st.writer),
        length,
    };
    assert(header@.title == st@.title && header@.writer == st@.writer);
    Ok(Sheet { header, tokens: st.tokens })
}

/// Once a sheet's scan has failed, the lines after leave it as it is.
proof fn lemma_lines_error_stays(ls: Seq<Seq<char>>, k: int)
    requires
        0 <= k <= ls.len(),
        scan_lines(ls.take(k)).error is Some,
    ensures
        scan_lines(ls) == scan_lines(ls.take(k)),
    decreases ls.len() - k,
{
    if k < ls.len() {
        assert(ls.take(k + 1).drop_last() == ls.take(k));
        lemma_lines_error_stays(ls, k + 1);
    } else {
        assert(ls.take(k) == ls);
    }
}

/// The time that each token of `sheet` gets on average, in microseconds,
/// rounded down; `None` for a sheet without tokens.
pub fn average_token_time(sheet: &Sheet) -> (r: Option<u64>)
    ensures
        sheet.tokens.len() == 0 ==> r is None,
        sheet.tokens.len() > 0 ==> r == Some((sheet.header.length / sheet.tokens.len() as u64) as u64),
{
    let n = sheet.tokens.len();
    if n == 0 {
        None
    } else {
        Some(sheet.header.length / n as u64)
    }
}


/// Parsing depends on the text alone: the same text always gives the same
/// header and the same tokens, or the same error.
pub proof fn lemma_parse_deterministic(a: Seq<char>, b: Seq<char>)
    requires
        a == b,
    ensures
        parse_spec(a) == parse_spec(b),
{
}

/// `k` blank lines.
pub open spec fn blank_lines(k: nat) -> Seq<Seq<char>> {
    Seq::new(k, |i: int| Seq::<char>::empty())
}

/// The scan of `ls` from the state `s`.
spec fn scan_from(s: SheetScan, ls: Seq<Seq<char>>) -> SheetScan
    decreases ls.len(),
{
    if ls.len() == 0 {
        s
    } else {
        step_line(scan_from(s, ls.drop_last()), ls.last())
    }
}

proof fn lemma_scan_lines_from(ls: Seq<Seq<char>>)
    ensures
        scan_lines(ls) == scan_from(scan_lines(Seq::empty()), ls),
    decreases ls.len(),
{
    if ls.len() > 0 {
        lemma_scan_lines_from(ls.drop_last());
    }
}

proof fn lemma_scan_from_concat(s: SheetScan, a: Seq<Seq<char>>, b: Seq<Seq<char>>)
    ensures
        scan_from(s, a + b) == scan_from(scan_from(s, a), b),
    decreases b.len(),
{
    if b.len() == 0 {
        assert(a + b == a);
    } else {
        assert((a + b).drop_last() == a + b.drop_last());
        lemma_scan_from_concat(s, a, b.drop_last());
    }
}

proof fn lemma_scan_blank_run(s: SheetScan, k: nat)
    requires
        k >= 1,
        s.error is None,
        !s.last_empty,
    ensures
        scan_from(s, blank_lines(k)) == (SheetScan {
            tokens: s.tokens.push(TokenView::LongPause),
            last_empty: true,
            ..s
        }),
    decreases k,
{
    assert(blank_lines(k).drop_last() == blank_lines((k - 1) as nat));
    if k > 1 {
        lemma_scan_blank_run(s, (k - 1) as nat);
    } else {
        assert(blank_lines(0) == Seq::<Seq<char>>::empty());
    }
}

/// A run of blank lines after a non-blank line is one long pause, however
/// many lines it has: the run adds exactly one `LongPause` to the tokens, and
/// what follows the run parses as it would after a single blank line.
pub proof fn lemma_blank_run_is_one_long_pause(
    p: Seq<Seq<char>>,
    k: nat,
    q: Seq<Seq<char>>,
)
    requires
        k >= 1,
        p.len() > 0,
        p.last().len() > 0,
        q.len() > 0,
        q[0].len() > 0,
        scan_lines(p).error is None,
    ensures
        scan_lines(p + blank_lines(k)).tokens == scan_lines(p).tokens.push(TokenView::LongPause),
        scan_lines(p + blank_lines(k) + q) == scan_lines(p + blank_lines(1) + q),
{
    let init = scan_lines(Seq::<Seq<char>>::empty());
    assert(!scan_lines(p).last_empty) by {
        assert(p.drop_last() + seq![p.last()] == p);
    }
    lemma_scan_lines_from(p);
    lemma_scan_lines_from(p + blank_lines(k));
    lemma_scan_lines_from(p + blank_lines(k) + q);
    lemma_scan_lines_from(p + blank_lines(1) + q);
    lemma_scan_from_concat(init, p, blank_lines(k));
    lemma_scan_from_concat(init, p, blank_lines(1));
    lemma_scan_from_concat(init, p + blank_lines(k), q);
    lemma_scan_from_concat(init, p + blank_lines(1), q);
    lemma_scan_blank_run(scan_lines(p), k);
    lemma_scan_blank_run(scan_lines(p), 1);
}


/// `n` newline characters.
pub open spec fn newlines(n: nat) -> Seq<char> {
    Seq::new(n, |i: int| '\n')
}

proof fn lemma_pieces_split(x: Seq<char>, y: Seq<char>)
    ensures
        pieces(x + seq!['\n'] + y) == pieces(x) + pieces(y),
    decreases y.len(),
{
    let t = x + seq!['\n'] + y;
    if y.len() == 0 {
        assert(t.drop_last() == x);
        assert(pieces(x).push(Seq::empty()) =~= pieces(x) + pieces(y));
    } else {
        assert(t.drop_last() == x + seq!['\n'] + y.drop_last());
        lemma_pieces_split(x, y.drop_last());
        lemma_pieces_nonempty(y.drop_last());
        let a = pieces(x);
        let b = pieces(y.drop_last());
        if y.last() == '\n' {
            assert((a + b).push(Seq::empty()) =~= a + b.push(Seq::empty()));
        } else {
            assert((a + b).update((a + b).len() - 1, (a + b).last().push(y.last())) =~= a
                + b.update(b.len() - 1, b.last().push(y.last())));
        }
    }
}

proof fn lemma_pieces_nonempty(t: Seq<char>)
    ensures
        pieces(t).len() >= 1,
    decreases t.len(),
{
    if t.len() > 0 {
        lemma_pieces_nonempty(t.drop_last());
    }
}

proof fn lemma_pieces_newlines(m: nat, y: Seq<char>)
    ensures
        pieces(newlines(m) + y) == blank_lines(m) + pieces(y),
    decreases m,
{
    if m > 0 {
        assert(newlines(m) + y =~= Seq::<char>::empty() + seq!['\n'] + (newlines((m - 1) as nat)
            + y));
        lemma_pieces_split(Seq::empty(), newlines((m - 1) as nat) + y);
        lemma_pieces_newlines((m - 1) as nat, y);
        assert(pieces(Seq::<char>::empty()) + (blank_lines((m - 1) as nat) + pieces(y))
            =~= blank_lines(m) + pieces(y));
    } else {
        assert(newlines(0) + y =~= y);
        assert(blank_lines(0) + pieces(y) =~= pieces(y));
    }
}

/// What follows the blank run in the lines of `s1 + newlines(k + 1) + s2`.
spec fn tail_lines(q: Seq<Seq<char>>) -> Seq<Seq<char>> {
    let ended = q.drop_last().map_values(|l: Seq<char>| strip_cr(l));
    if q.last().len() == 0 {
        ended
    } else {
        ended.push(q.last())
    }
}

proof fn lemma_lines_around_run(s1: Seq<char>, k: nat, s2: Seq<char>)
    requires
        k >= 1,
    ensures
        lines_of(s1 + newlines(k + 1) + s2) == pieces(s1).map_values(|l: Seq<char>| strip_cr(l))
            + blank_lines(k) + tail_lines(pieces(s2)),
{
    let t = s1 + newlines(k + 1) + s2;
    assert(t =~= s1 + seq!['\n'] + (newlines(k) + s2));
    lemma_pieces_split(s1, newlines(k) + s2);
    lemma_pieces_newlines(k, s2);
    lemma_pieces_nonempty(s2);
    let a = pieces(s1);
    let q = pieces(s2);
    let p = a + (blank_lines(k) + q);
    assert(pieces(t) == p);
    assert(p.drop_last() =~= a + blank_lines(k) + q.drop_last());
    assert(p.last() == q.last());
    let st = |l: Seq<char>| strip_cr(l);
    assert(blank_lines(k).map_values(st) =~= blank_lines(k));
    assert((a + blank_lines(k) + q.drop_last()).map_values(st) =~= a.map_values(st)
        + blank_lines(k).map_values(st) + q.drop_last().map_values(st));
    if q.last().len() == 0 {
        assert(lines_of(t) =~= a.map_values(st) + blank_lines(k) + tail_lines(q));
    } else {
        assert(lines_of(t) =~= a.map_values(st) + blank_lines(k) + tail_lines(q));
    }
}

proof fn lemma_blank_run_from(s: SheetScan, k: nat)
    requires
        k >= 1,
    ensures
        scan_from(s, blank_lines(k)) == step_line(s, Seq::empty()),
    decreases k,
{
    assert(blank_lines(k).drop_last() == blank_lines((k - 1) as nat));
    if k > 1 {
        lemma_blank_run_from(s, (k - 1) as nat);
    } else {
        assert(blank_lines(0) == Seq::<Seq<char>>::empty());
    }
}

/// Between any two texts, a run of one or more blank lines parses as one
/// blank line does: the text with `k + 1` newlines there parses exactly as
/// the text with two.
pub proof fn lemma_blank_run_collapses(s1: Seq<char>, k: nat, s2: Seq<char>)
    requires
        k >= 1,
    ensures
        parse_spec(s1 + newlines(k + 1) + s2) == parse_spec(s1 + newlines(2) + s2),
{
    lemma_lines_around_run(s1, k, s2);
    lemma_lines_around_run(s1, 1, s2);
    let a = pieces(s1).map_values(|l: Seq<char>| strip_cr(l));
    let q = tail_lines(pieces(s2));
    let init = scan_lines(Seq::<Seq<char>>::empty());
    lemma_scan_lines_from(a + blank_lines(k) + q);
    lemma_scan_lines_from(a + blank_lines(1) + q);
    lemma_scan_from_concat(init, a + blank_lines(k), q);
    lemma_scan_from_concat(init, a + blank_lines(1), q);
    lemma_scan_from_concat(init, a, blank_lines(k));
    lemma_scan_from_concat(init, a, blank_lines(1));
    lemma_blank_run_from(scan_from(init, a), k);
    lemma_blank_run_from(scan_from(init, a), 1);
}

} // verus!
