use vstd::prelude::*;
use crate::types::{Move, MoveModel};
use crate::notation::{ParseMoveError, parse_move_chars, parse_move_spec, code};
use crate::text::{chars_of, string_of};

verus! {

/// The outcome a game record declares.
#[derive(Clone, Copy, PartialEq, Eq, Structural, Debug, Hash)]
pub enum RecordResult {
    Ongoing,
    WhiteWin,
    BlackWin,
    Draw,
}

/// Why a game record could not be read.
#[derive(Clone, Copy, PartialEq, Eq, Structural, Debug, Hash)]
pub enum ParsePtnError {
    /// A tag is not of the form `[Key "Value"]`.
    BadTag,
    /// A comment has no closing `}`.
    UnclosedComment,
    /// A move could not be read.
    BadMove(ParseMoveError),
}

/// A game record: its tags, its moves, the comments before the first move and after
/// each move, and the declared result.
#[derive(Clone, Debug)]
pub struct Ptn {
    pub tags: Vec<(String, String)>,
    pub moves: Vec<Move>,
    pub comments: Vec<Vec<String>>,
    pub result: RecordResult,
}

/// A game record as a value; `group` holds the comments since the last move.
pub struct RecordView {
    pub tags: Seq<(Seq<char>, Seq<char>)>,
    pub moves: Seq<MoveModel>,
    pub comments: Seq<Seq<Seq<char>>>,
    pub group: Seq<Seq<char>>,
    pub result: RecordResult,
}

pub open spec fn is_space(c: char) -> bool {
    c == ' ' || c == '\n' || c == '\t' || c == '\r'
}

/// The number of spaces from `j` on.
pub open spec fn space_len(s: Seq<char>, j: int) -> nat
    decreases s.len() - j,
{
    if 0 <= j < s.len() && is_space(s[j]) {
        1 + space_len(s, j + 1)
    } else {
        0
    }
}

/// The number of characters from `j` on that are neither spaces nor `stop`.
pub open spec fn word_len(s: Seq<char>, j: int, stop: char) -> nat
    decreases s.len() - j,
{
    if 0 <= j < s.len() && !is_space(s[j]) && s[j] != stop {
        1 + word_len(s, j + 1, stop)
    } else {
        0
    }
}

/// The number of characters from `j` on before the next `}`.
pub open spec fn comment_len(s: Seq<char>, j: int) -> nat
    decreases s.len() - j,
{
    if 0 <= j < s.len() && s[j] != '}' {
        1 + comment_len(s, j + 1)
    } else {
        0
    }
}

/// Marks after a move that say how good it was: `'`, `"`, `!`, `?`, `*`.
pub open spec fn is_mark(c: char) -> bool {
    c == '\'' || c == '"' || c == '!' || c == '?' || c == '*'
}

/// The number of marks that end `s[i..j]`.
pub open spec fn mark_len(s: Seq<char>, i: int, j: int) -> nat
    decreases j - i,
{
    if i < j && is_mark(s[j - 1]) {
        1 + mark_len(s, i, j - 1)
    } else {
        0
    }
}

/// A move number such as `12.`.
pub open spec fn number_token(t: Seq<char>) -> bool {
    t.len() >= 2 && t.last() == '.' && forall|k: int| 0 <= k < t.len() - 1 ==> 48 <= code(#[trigger] t[k]) <= 57
}

/// The result a token declares: `R-0`, `F-0` or `1-0` for White, the mirror images for
/// Black, and `1/2-1/2` for a draw.
pub open spec fn result_token(t: Seq<char>) -> Option<RecordResult> {
    if t.len() == 3 && t[1] == '-' && (t[0] == 'R' || t[0] == 'F' || t[0] == '1') && t[2] == '0' {
        Some(RecordResult::WhiteWin)
    } else if t.len() == 3 && t[1] == '-' && t[0] == '0' && (t[2] == 'R' || t[2] == 'F' || t[2] == '1') {
        Some(RecordResult::BlackWin)
    } else if t.len() == 7 && t[0] == '1' && t[1] == '/' && t[2] == '2' && t[3] == '-' && t[4] == '1' && t[5] == '/'
        && t[6] == '2' {
        Some(RecordResult::Draw)
    } else {
        None
    }
}

/// A tag value from `j` to its closing quote, with `\` making the next character plain.
pub open spec fn tag_value(s: Seq<char>, j: int, acc: Seq<char>) -> Option<(Seq<char>, int)>
    decreases s.len() - j,
{
    if j < 0 || j >= s.len() {
        None
    } else if s[j] == '"' {
        Some((acc, j + 1))
    } else if s[j] == '\\' && j + 1 < s.len() {
        tag_value(s, j + 2, acc.push(s[j + 1]))
    } else {
        tag_value(s, j + 1, acc.push(s[j]))
    }
}

/// A tag `Key "Value"]` from `i`, just after its `[`: the key, the value, and where it ends.
pub open spec fn tag_at(s: Seq<char>, i: int) -> Option<(Seq<char>, Seq<char>, int)> {
    let k = i + word_len(s, i, '"');
    let q = k + space_len(s, k);
    if q >= s.len() || s[q] != '"' {
        None
    } else {
        match tag_value(s, q + 1, Seq::empty()) {
            None => None,
            Some((v, e)) => {
                let f = e + space_len(s, e);
                if f >= s.len() || s[f] != ']' {
                    None
                } else {
                    Some((s.subrange(i, k), v, f + 1))
                }
            },
        }
    }
}

/// The tags from `i` on, added to `tags`, and where the moves begin.
pub open spec fn tags_from(s: Seq<char>, i: int, tags: Seq<(Seq<char>, Seq<char>)>) -> Result<
    (Seq<(Seq<char>, Seq<char>)>, int),
    ParsePtnError,
>
    decreases s.len() - i,
{
    let p = i + space_len(s, i);
    if i < 0 || p >= s.len() || s[p] != '[' {
        Ok((tags, p))
    } else {
        match tag_at(s, p + 1) {
            None => Err(ParsePtnError::BadTag),
            Some((k, v, e)) => if e <= i || e > s.len() {
                Err(ParsePtnError::BadTag)
            } else {
                tags_from(s, e, tags.push((k, v)))
            },
        }
    }
}

/// The moves, comments and result from `i` on, added to `b`. Spaces separate tokens;
/// `{...}` is a comment; move numbers are skipped; a result ends the record.
pub open spec fn body_from(s: Seq<char>, i: int, b: RecordView) -> Result<RecordView, ParsePtnError>
    decreases s.len() - i,
{
    if i < 0 || i >= s.len() {
        Ok(b)
    } else if is_space(s[i]) {
        body_from(s, i + 1, b)
    } else if s[i] == '{' {
        let j = i + 1 + comment_len(s, i + 1);
        if j >= s.len() {
            Err(ParsePtnError::UnclosedComment)
        } else {
            body_from(s, j + 1, RecordView { group: b.group.push(s.subrange(i + 1, j)), ..b })
        }
    } else {
        let j = i + word_len(s, i, '{');
        let t = s.subrange(i, j);
        if j <= i || j > s.len() {
            Ok(b)
        } else if number_token(t) {
            body_from(s, j, b)
        } else if result_token(t) is Some {
            Ok(RecordView { result: result_token(t)->0, ..b })
        } else {
            let k = j - mark_len(s, i, j);
            match parse_move_spec(s.subrange(i, k)) {
                Err(e) => Err(ParsePtnError::BadMove(e)),
                Ok(m) => body_from(
                    s,
                    j,
                    RecordView { moves: b.moves.push(m), comments: b.comments.push(b.group), group: Seq::empty(), ..b },
                ),
            }
        }
    }
}

/// How a game record is read: its tags, then its body; the comments after the last
/// move close the list of comment groups.
pub open spec fn record_of(s: Seq<char>) -> Result<RecordView, ParsePtnError> {
    match tags_from(s, 0, Seq::empty()) {
        Err(e) => Err(e),
        Ok((tags, start)) => {
            let empty = RecordView {
                tags,
                moves: Seq::empty(),
                comments: Seq::empty(),
                group: Seq::empty(),
                result: RecordResult::Ongoing,
            };
            match body_from(s, start, empty) {
                Err(e) => Err(e),
                Ok(b) => Ok(RecordView { comments: b.comments.push(b.group), group: Seq::empty(), ..b }),
            }
        },
    }
}

pub open spec fn tags_view(v: Seq<(String, String)>) -> Seq<(Seq<char>, Seq<char>)> {
    v.map_values(|t: (String, String)| (t.0@, t.1@))
}

pub open spec fn group_view(g: Seq<String>) -> Seq<Seq<char>> {
    g.map_values(|c: String| c@)
}

pub open spec fn comments_view(v: Seq<Vec<String>>) -> Seq<Seq<Seq<char>>> {
    v.map_values(|g: Vec<String>| group_view(g@))
}

pub open spec fn moves_view(v: Seq<Move>) -> Seq<MoveModel> {
    v.map_values(|m: Move| m@)
}

impl Ptn {
    pub open spec fn view_of(&self) -> RecordView {
        RecordView {
            tags: tags_view(self.tags@),
            moves: moves_view(self.moves@),
            comments: comments_view(self.comments@),
            group: Seq::empty(),
            result: self.result,
        }
    }
}

fn space(c: char) -> (r: bool)
    ensures
        r == is_space(c),
{
    c == ' ' || c == '\n' || c == '\t' || c == '\r'
}

fn mark(c: char) -> (r: bool)
    ensures
        r == is_mark(c),
{
    c == '\'' || c == '"' || c == '!' || c == '?' || c == '*'
}

fn skip_spaces(s: &Vec<char>, j: usize) -> (r: usize)
    requires
        j <= s.len(),
    ensures
        r == j + space_len(s@, j as int),
        r <= s.len(),
{
    let mut k: usize = j;
    while k < s.len() && space(s[k])
        invariant
            j <= k <= s.len(),
            j + space_len(s@, j as int) == k + space_len(s@, k as int),
        decreases s.len() - k,
    {
        k = k + 1;
    }
    k
}

fn word_end(s: &Vec<char>, j: usize, stop: char) -> (r: usize)
    requires
        j <= s.len(),
    ensures
        r == j + word_len(s@, j as int, stop),
        r <= s.len(),
{
    let mut k: usize = j;
    while k < s.len() && !space(s[k]) && s[k] != stop
        invariant
            j <= k <= s.len(),
            j + word_len(s@, j as int, stop) == k + word_len(s@, k as int, stop),
        decreases s.len() - k,
    {
        k = k + 1;
    }
    k
}

fn comment_end(s: &Vec<char>, j: usize) -> (r: usize)
    requires
        j <= s.len(),
    ensures
        r == j + comment_len(s@, j as int),
        r <= s.len(),
{
    let mut k: usize = j;
    while k < s.len() && s[k] != '}'
        invariant
            j <= k <= s.len(),
            j + comment_len(s@, j as int) == k + comment_len(s@, k as int),
        decreases s.len() - k,
    {
        k = k + 1;
    }
    k
}

fn marks_start(s: &Vec<char>, i: usize, j: usize) -> (r: usize)
    requires
        i <= j <= s.len(),
    ensures
        r == j - mark_len(s@, i as int, j as int),
        i <= r,
{
    let mut k: usize = j;
    while k > i && mark(s[k - 1])
        invariant
            i <= k <= j,
            j <= s.len(),
            j - mark_len(s@, i as int, j as int) == k - mark_len(s@, i as int, k as int),
        decreases k,
    {
        k = k - 1;
    }
    k
}

fn slice(s: &Vec<char>, a: usize, b: usize) -> (r: Vec<char>)
    requires
        a <= b <= s.len(),
    ensures
        r@ == s@.subrange(a as int, b as int),
{
    let mut out: Vec<char> = Vec::new();
    let mut i: usize = a;
    while i < b
        invariant
            a <= i <= b <= s.len(),
            out@ == s@.subrange(a as int, i as int),
        decreases b - i,
    {
        out.push(s[i]);
        i = i + 1;
    }
    out
}

fn token_result(s: &Vec<char>, a: usize, b: usize) -> (r: Option<RecordResult>)
    requires
        a <= b <= s.len(),
    ensures
        r == result_token(s@.subrange(a as int, b as int)),
{
    let t = slice(s, a, b);
    let n = t.len();
    if n == 3 && t[1] == '-' && (t[0] == 'R' || t[0] == 'F' || t[0] == '1') && t[2] == '0' {
        Some(RecordResult::WhiteWin)
    } else if n == 3 && t[1] == '-' && t[0] == '0' && (t[2] == 'R' || t[2] == 'F' || t[2] == '1') {
        Some(RecordResult::BlackWin)
    } else if n == 7 && t[0] == '1' && t[1] == '/' && t[2] == '2' && t[3] == '-' && t[4] == '1' && t[5] == '/' && t[6]
        == '2' {
        Some(RecordResult::Draw)
    } else {
        None
    }
}

fn is_move_number(s: &Vec<char>, a: usize, b: usize) -> (r: bool)
    requires
        a <= b <= s.len(),
    ensures
        r == number_token(s@.subrange(a as int, b as int)),
{
    let ghost t = s@.subrange(a as int, b as int);
    if b - a < 2 || s[b - 1] != '.' {
        return false;
    }
    let mut i: usize = a;
    while i < b - 1
        invariant
            a <= i <= b - 1,
            b <= s.len(),
            t == s@.subrange(a as int, b as int),
            forall|k: int| 0 <= k < i - a ==> 48 <= code(#[trigger] t[k]) <= 57,
        decreases b - 1 - i,
    {
        let c = s[i] as u32;
        if c < 48 || c > 57 {
            assert(t[i - a] == s@[i as int]);
            return false;
        }
        assert(t[i - a] == s@[i as int]);
        i = i + 1;
    }
    true
}

/// Reads a tag just after its `[` at `i - 1`.
fn read_tag(s: &Vec<char>, i: usize) -> (r: Option<(String, String, usize)>)
    requires
        i <= s.len(),
    ensures
        match r {
            None => tag_at(s@, i as int) is None,
            Some((k, v, e)) => tag_at(s@, i as int) == Some((k@, v@, e as int)),
        },
{
    let k = word_end(s, i, '"');
    let key = slice(s, i, k);
    let q = skip_spaces(s, k);
    if q >= s.len() || s[q] != '"' {
        return None;
    }
    let mut j: usize = q + 1;
    let mut value: Vec<char> = Vec::new();
    while j < s.len() && s[j] != '"'
        invariant
            q < j <= s.len() + 1,
            tag_value(s@, q + 1, Seq::empty()) == tag_value(s@, j as int, value@),
        decreases s.len() + 1 - j,
    {
        if s[j] == '\\' && j + 1 < s.len() {
            value.push(s[j + 1]);
            j = j + 2;
        } else {
            value.push(s[j]);
            j = j + 1;
        }
    }
    if j >= s.len() {
        return None;
    }
    let e = j + 1;
    let f = skip_spaces(s, e);
    if f >= s.len() || s[f] != ']' {
        return None;
    }
    Some((string_of(&key), string_of(&value), f + 1))
}

impl Ptn {
    /// Reads a game record.
    #[verifier::loop_isolation(false)]
    pub fn parse(text: &str) -> (r: Result<Ptn, ParsePtnError>)
        ensures
            match r {
                Ok(p) => record_of(text@) == Ok::<RecordView, ParsePtnError>(p.view_of()),
                Err(e) => record_of(text@) == Err::<RecordView, ParsePtnError>(e),
            },
    {
        let s = chars_of(text);
        let n = s.len();
        let mut tags: Vec<(String, String)> = Vec::new();
        let mut i: usize = 0;
        assert(tags_view(tags@) =~= Seq::<(Seq<char>, Seq<char>)>::empty());
        loop
            invariant
                i <= n,
                n == s.len(),
                s@ == text@,
                tags_from(s@, 0, Seq::empty()) == tags_from(s@, i as int, tags_view(tags@)),
            decreases n - i,
        {
            let p = skip_spaces(&s, i);
            if p >= n || s[p] != '[' {
                i = p;
                break;
            }
            match read_tag(&s, p + 1) {
                None => return Err(ParsePtnError::BadTag),
                Some((k, v, e)) => {
                    if e <= i || e > n {
                        return Err(ParsePtnError::BadTag);
                    }
                    let ghost before = tags_view(tags@);
                    tags.push((k, v));
                    assert(tags_view(tags@) =~= before.push((k@, v@)));
                    i = e;
                },
            }
        }
        let ghost start: int = i as int;
        let mut moves: Vec<Move> = Vec::new();
        let mut comments: Vec<Vec<String>> = Vec::new();
        let mut group: Vec<String> = Vec::new();
        let mut result = RecordResult::Ongoing;
        let ghost first = RecordView {
            tags: tags_view(tags@),
            moves: Seq::empty(),
            comments: Seq::empty(),
            group: Seq::empty(),
            result: RecordResult::Ongoing,
        };
        assert(moves_view(moves@) =~= Seq::<MoveModel>::empty());
        assert(comments_view(comments@) =~= Seq::<Seq<Seq<char>>>::empty());
        assert(group_view(group@) =~= Seq::<Seq<char>>::empty());
        while i < n
            invariant
                i <= n,
                n == s.len(),
                s@ == text@,
                result == RecordResult::Ongoing,
                tags_from(s@, 0, Seq::empty()) == Ok::<(Seq<(Seq<char>, Seq<char>)>, int), ParsePtnError>((first.tags, start)),
                body_from(s@, start, first) == body_from(s@, i as int, RecordView {
                    tags: first.tags,
                    moves: moves_view(moves@),
                    comments: comments_view(comments@),
                    group: group_view(group@),
                    result: RecordResult::Ongoing,
                }),
            decreases n - i,
        {
            if space(s[i]) {
                i = i + 1;
                continue;
            }
            if s[i] == '{' {
                let j = comment_end(&s, i + 1);
                if j >= n {
                    return Err(ParsePtnError::UnclosedComment);
                }
                let c = slice(&s, i + 1, j);
                let ghost before = group_view(group@);
                group.push(string_of(&c));
                assert(group_view(group@) =~= before.push(s@.subrange(i + 1, j as int)));
                i = j + 1;
                continue;
            }
            let j = word_end(&s, i, '{');
            if j <= i {
                break;
            }
            if is_move_number(&s, i, j) {
                i = j;
                continue;
            }
            if let Some(res) = token_result(&s, i, j) {
                result = res;
                break;
            }
            let k = marks_start(&s, i, j);
            let token = slice(&s, i, k);
            match parse_move_chars(&token) {
                Err(e) => return Err(ParsePtnError::BadMove(e)),
                Ok(m) => {
                    let ghost mv = moves_view(moves@);
                    let ghost cv = comments_view(comments@);
                    let ghost gv = group_view(group@);
                    moves.push(m);
                    comments.push(group);
                    group = Vec::new();
                    assert(moves_view(moves@) =~= mv.push(m@));
                    assert(comments_view(comments@) =~= cv.push(gv));
                    assert(group_view(group@) =~= Seq::<Seq<char>>::empty());
                },
            }
            i = j;
        }
        let ghost gv = group_view(group@);
        let ghost cv = comments_view(comments@);
        comments.push(group);
        assert(comments_view(comments@) =~= cv.push(gv));
        let p = Ptn { tags, moves, comments, result };
        Ok(p)
    }
}

} // verus!
