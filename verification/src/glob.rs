//! Shell-style glob patterns over repository-relative paths.
//!
//! A pattern is a sequence of pieces:
//!
//! * `?` stands for one character other than `/`;
//! * `*` stands for any run of characters other than `/`, the empty run included;
//! * `**` stands for any run of characters, `/` included;
//! * `[...]` stands for one character other than `/` out of a class, and
//!   `[!...]` or `[^...]` for one that is not in it; a class lists characters
//!   and ranges such as `a-z`, and a `]` that stands first in it is a member;
//! * `\` makes the character behind it stand for itself;
//! * every other character stands for itself.
//!
//! A pattern matches a path if the whole path can be read off the pieces.

use crate::text::chars_of;
use vstd::prelude::*;

verus! {

/// One piece of a compiled pattern.
pub enum Piece {
    /// The character itself.
    Literal(char),
    /// `?`
    AnyChar,
    /// `*`
    AnyRun,
    /// `**`
    AnyPath,
    /// A class of characters given by inclusive ranges; `true` if it is negated.
    Class(bool, Seq<(char, char)>),
}

/// Whether `c` lies in one of `ranges`.
pub open spec fn in_ranges(ranges: Seq<(char, char)>, c: char) -> bool {
    exists|k: int| 0 <= k < ranges.len() && (#[trigger] ranges[k]).0 <= c <= ranges[k].1
}

impl Piece {
    /// Whether the piece stands for a run of characters rather than for one.
    pub open spec fn is_run(self) -> bool {
        self is AnyRun || self is AnyPath
    }

    /// Whether `c` may stand in a run of this piece.
    pub open spec fn carries(self, c: char) -> bool {
        self is AnyPath || (self is AnyRun && c != '/')
    }

    /// Whether this piece, if it stands for one character, stands for `c`.
    pub open spec fn accepts(self, c: char) -> bool {
        match self {
            Piece::Literal(x) => c == x,
            Piece::AnyChar => c != '/',
            Piece::Class(negated, ranges) => c != '/' && in_ranges(ranges, c) != negated,
            Piece::AnyRun => false,
            Piece::AnyPath => false,
        }
    }
}

/// Whether the pieces from index `i` on read off exactly the path from index `j` on.
pub open spec fn matches_from(pieces: Seq<Piece>, i: int, path: Seq<char>, j: int) -> bool
    decreases pieces.len() - i, path.len() - j,
{
    if i >= pieces.len() {
        j >= path.len()
    } else if pieces[i].is_run() {
        ||| matches_from(pieces, i + 1, path, j)
        ||| (j < path.len() && pieces[i].carries(path[j]) && matches_from(pieces, i, path, j + 1))
    } else {
        j < path.len() && pieces[i].accepts(path[j]) && matches_from(pieces, i + 1, path, j + 1)
    }
}

/// Whether the pattern `pieces` matches `path`.
pub open spec fn matches_path(pieces: Seq<Piece>, path: Seq<char>) -> bool {
    matches_from(pieces, 0, path, 0)
}

/// Whether `piece` stands for exactly the characters `part`.
pub open spec fn reads(piece: Piece, part: Seq<char>) -> bool {
    if piece.is_run() {
        forall|k: int| 0 <= k < part.len() ==> piece.carries(#[trigger] part[k])
    } else {
        part.len() == 1 && piece.accepts(part[0])
    }
}

/// Whether the cuts divide the path from index `cuts[0]` on into one part for
/// each of the pieces from index `i` on, which that piece stands for.
pub open spec fn is_reading_from(
    pieces: Seq<Piece>,
    i: int,
    path: Seq<char>,
    cuts: Seq<int>,
) -> bool {
    &&& cuts.len() == pieces.len() - i + 1
    &&& 0 <= cuts[0]
    &&& cuts[pieces.len() - i] == path.len()
    &&& forall|k: int| 0 <= k < pieces.len() - i ==> #[trigger] cuts[k] <= cuts[k + 1]
    &&& forall|k: int|
        0 <= k < pieces.len() - i ==> reads(
            pieces[i + k],
            path.subrange(#[trigger] cuts[k], cuts[k + 1]),
        )
}

/// Whether the cuts divide the whole path into one part for each piece, which
/// that piece stands for.
pub open spec fn is_reading(pieces: Seq<Piece>, path: Seq<char>, cuts: Seq<int>) -> bool {
    cuts[0] == 0 && is_reading_from(pieces, 0, path, cuts)
}

/// No cut lies behind the end of the path.
proof fn lemma_cuts_stay_inside(pieces: Seq<Piece>, i: int, path: Seq<char>, cuts: Seq<int>, k: int)
    requires
        0 <= i <= pieces.len(),
        is_reading_from(pieces, i, path, cuts),
        0 <= k <= pieces.len() - i,
    ensures
        cuts[0] <= cuts[k] <= path.len(),
    decreases k,
{
    if k > 0 {
        lemma_cuts_stay_inside(pieces, i, path, cuts, k - 1);
        assert(cuts[k - 1] <= cuts[k - 1 + 1]);
        lemma_cuts_end_inside(pieces, i, path, cuts, k);
    } else {
        lemma_cuts_end_inside(pieces, i, path, cuts, 0);
    }
}

proof fn lemma_cuts_end_inside(pieces: Seq<Piece>, i: int, path: Seq<char>, cuts: Seq<int>, k: int)
    requires
        0 <= i <= pieces.len(),
        is_reading_from(pieces, i, path, cuts),
        0 <= k <= pieces.len() - i,
    ensures
        cuts[k] <= path.len(),
    decreases pieces.len() - i - k,
{
    if k < pieces.len() - i {
        lemma_cuts_end_inside(pieces, i, path, cuts, k + 1);
        assert(cuts[k] <= cuts[k + 1]);
    }
}

/// A reading of the pieces behind index `i`, with one more part in front for the piece at `i`.
proof fn lemma_one_more_part(pieces: Seq<Piece>, i: int, path: Seq<char>, j: int, rest: Seq<int>)
    requires
        0 <= i < pieces.len(),
        is_reading_from(pieces, i + 1, path, rest),
        0 <= j <= rest[0],
        reads(pieces[i], path.subrange(j, rest[0])),
    ensures
        is_reading_from(pieces, i, path, seq![j] + rest),
{
    let cuts = seq![j] + rest;
    assert forall|k: int| 0 <= k < pieces.len() - i implies reads(
        pieces[i + k],
        path.subrange(#[trigger] cuts[k], cuts[k + 1]),
    ) by {
        if k > 0 {
            assert(cuts[k] == rest[k - 1] && cuts[k + 1] == rest[k - 1 + 1]);
            assert(reads(pieces[i + 1 + (k - 1)], path.subrange(rest[k - 1], rest[k - 1 + 1])));
        }
    }
    assert forall|k: int| 0 <= k < pieces.len() - i implies #[trigger] cuts[k] <= cuts[k + 1] by {
        if k > 0 {
            assert(rest[k - 1] <= rest[k - 1 + 1]);
        }
    }
}

/// A reading without its first part is a reading of the pieces behind the first.
proof fn lemma_one_part_less(pieces: Seq<Piece>, i: int, path: Seq<char>, cuts: Seq<int>)
    requires
        0 <= i < pieces.len(),
        is_reading_from(pieces, i, path, cuts),
    ensures
        is_reading_from(pieces, i + 1, path, cuts.skip(1)),
{
    let tail = cuts.skip(1);
    assert(cuts[0] <= cuts[1]);
    assert forall|k: int| 0 <= k < pieces.len() - (i + 1) implies reads(
        pieces[i + 1 + k],
        path.subrange(#[trigger] tail[k], tail[k + 1]),
    ) by {
        assert(tail[k] == cuts[k + 1] && tail[k + 1] == cuts[k + 1 + 1]);
        assert(reads(pieces[i + (k + 1)], path.subrange(cuts[k + 1], cuts[k + 1 + 1])));
    }
    assert forall|k: int| 0 <= k < pieces.len() - (i + 1) implies #[trigger] tail[k] <= tail[k
        + 1] by {
        assert(cuts[k + 1] <= cuts[k + 1 + 1]);
    }
}

/// A reading whose first part is a run, with the first cut moved to `j`:
/// either one place to the left, over a character that the run carries, or
/// one place to the right.
proof fn lemma_move_first_cut(pieces: Seq<Piece>, i: int, path: Seq<char>, cuts: Seq<int>, j: int)
    requires
        0 <= i < pieces.len(),
        is_reading_from(pieces, i, path, cuts),
        pieces[i].is_run(),
        0 <= j,
        (j == cuts[0] - 1 && pieces[i].carries(path[j])) || (j == cuts[0] + 1 && j <= cuts[1]),
    ensures
        is_reading_from(pieces, i, path, cuts.update(0, j)),
{
    let moved = cuts.update(0, j);
    lemma_cuts_stay_inside(pieces, i, path, cuts, 1);
    let before = path.subrange(cuts[0], cuts[1]);
    let part = path.subrange(j, cuts[1]);
    assert(reads(pieces[i + 0], before));
    assert forall|m: int| 0 <= m < part.len() implies pieces[i].carries(#[trigger] part[m]) by {
        if j == cuts[0] - 1 {
            if m > 0 {
                assert(part[m] == before[m - 1]);
            }
        } else {
            assert(part[m] == before[m + 1]);
        }
    }
    assert forall|k: int| 0 <= k < pieces.len() - i implies reads(
        pieces[i + k],
        path.subrange(#[trigger] moved[k], moved[k + 1]),
    ) by {
        if k > 0 {
            assert(moved[k] == cuts[k] && moved[k + 1] == cuts[k + 1]);
            assert(reads(pieces[i + k], path.subrange(cuts[k], cuts[k + 1])));
        }
    }
    assert forall|k: int| 0 <= k < pieces.len() - i implies #[trigger] moved[k] <= moved[k + 1] by {
        assert(cuts[k] <= cuts[k + 1]);
    }
}

proof fn lemma_match_gives_reading(
    pieces: Seq<Piece>,
    i: int,
    path: Seq<char>,
    j: int,
) -> (cuts: Seq<int>)
    requires
        0 <= i <= pieces.len(),
        0 <= j <= path.len(),
        matches_from(pieces, i, path, j),
    ensures
        is_reading_from(pieces, i, path, cuts),
        cuts[0] == j,
    decreases pieces.len() - i, path.len() - j,
{
    if i >= pieces.len() {
        seq![j]
    } else if pieces[i].is_run() {
        if matches_from(pieces, i + 1, path, j) {
            let rest = lemma_match_gives_reading(pieces, i + 1, path, j);
            lemma_one_more_part(pieces, i, path, j, rest);
            seq![j] + rest
        } else {
            let rest = lemma_match_gives_reading(pieces, i, path, j + 1);
            lemma_move_first_cut(pieces, i, path, rest, j);
            rest.update(0, j)
        }
    } else {
        let rest = lemma_match_gives_reading(pieces, i + 1, path, j + 1);
        assert(path.subrange(j, j + 1)[0] == path[j]);
        lemma_one_more_part(pieces, i, path, j, rest);
        seq![j] + rest
    }
}

proof fn lemma_reading_gives_match(pieces: Seq<Piece>, i: int, path: Seq<char>, cuts: Seq<int>)
    requires
        0 <= i <= pieces.len(),
        is_reading_from(pieces, i, path, cuts),
    ensures
        matches_from(pieces, i, path, cuts[0]),
    decreases pieces.len() - i, path.len() - cuts[0],
{
    let j = cuts[0];
    lemma_cuts_stay_inside(pieces, i, path, cuts, 0);
    if i < pieces.len() {
        lemma_cuts_stay_inside(pieces, i, path, cuts, 1);
        let part = path.subrange(cuts[0], cuts[1]);
        assert(reads(pieces[i + 0], part));
        if pieces[i].is_run() && cuts[1] > j {
            assert(part[0] == path[j]);
            lemma_move_first_cut(pieces, i, path, cuts, j + 1);
            lemma_reading_gives_match(pieces, i, path, cuts.update(0, j + 1));
        } else {
            lemma_one_part_less(pieces, i, path, cuts);
            lemma_reading_gives_match(pieces, i + 1, path, cuts.skip(1));
            if !pieces[i].is_run() {
                assert(part[0] == path[j]);
            }
        }
    }
}

/// A pattern matches a path exactly if the path can be cut into one part for
/// each piece, in order, such that a piece for one character stands for its
/// part and a run holds only characters that it carries.
pub proof fn lemma_matches_is_reading(pieces: Seq<Piece>, path: Seq<char>)
    ensures
        matches_path(pieces, path) <==> exists|cuts: Seq<int>| is_reading(pieces, path, cuts),
{
    if matches_path(pieces, path) {
        let cuts = lemma_match_gives_reading(pieces, 0, path, 0);
        assert(is_reading(pieces, path, cuts));
    }
    if exists|cuts: Seq<int>| is_reading(pieces, path, cuts) {
        let cuts = choose|cuts: Seq<int>| is_reading(pieces, path, cuts);
        lemma_reading_gives_match(pieces, 0, path, cuts);
    }
}

/// Why a pattern is refused.
#[derive(Clone, Copy, Debug, PartialEq, Eq, Structural)]
pub enum PatternError {
    /// A `[` without its `]`.
    UnclosedClass,
    /// A range whose first character comes after its last, as `z-a`.
    ReversedRange,
    /// A `\` at the end of the pattern.
    TrailingEscape,
}

/// The members of the class whose next member starts at index `k`, and the
/// index behind the closing bracket. `first` says that no member was read yet:
/// a `]` there is a member and does not close the class.
pub open spec fn class_from(pattern: Seq<char>, k: int, first: bool) -> Result<
    (Seq<(char, char)>, int),
    PatternError,
>
    decreases pattern.len() - k,
{
    if k >= pattern.len() {
        Err(PatternError::UnclosedClass)
    } else if pattern[k] == ']' && !first {
        Ok((Seq::empty(), k + 1))
    } else if k + 2 < pattern.len() && pattern[k + 1] == '-' && pattern[k + 2] != ']' {
        if pattern[k] > pattern[k + 2] {
            Err(PatternError::ReversedRange)
        } else {
            match class_from(pattern, k + 3, false) {
                Ok((rest, end)) => Ok((seq![(pattern[k], pattern[k + 2])] + rest, end)),
                Err(e) => Err(e),
            }
        }
    } else {
        match class_from(pattern, k + 1, false) {
            Ok((rest, end)) => Ok((seq![(pattern[k], pattern[k])] + rest, end)),
            Err(e) => Err(e),
        }
    }
}

/// The piece that starts at index `i` of `pattern`, and the index behind it.
pub open spec fn piece_at(pattern: Seq<char>, i: int) -> Result<(Piece, int), PatternError> {
    let c = pattern[i];
    if c == '*' {
        if i + 1 < pattern.len() && pattern[i + 1] == '*' {
            Ok((Piece::AnyPath, i + 2))
        } else {
            Ok((Piece::AnyRun, i + 1))
        }
    } else if c == '?' {
        Ok((Piece::AnyChar, i + 1))
    } else if c == '\\' {
        if i + 1 < pattern.len() {
            Ok((Piece::Literal(pattern[i + 1]), i + 2))
        } else {
            Err(PatternError::TrailingEscape)
        }
    } else if c == '[' {
        let negated = i + 1 < pattern.len() && (pattern[i + 1] == '!' || pattern[i + 1] == '^');
        let start = if negated {
            i + 2
        } else {
            i + 1
        };
        match class_from(pattern, start, true) {
            Ok((ranges, end)) => Ok((Piece::Class(negated, ranges), end)),
            Err(e) => Err(e),
        }
    } else {
        Ok((Piece::Literal(c), i + 1))
    }
}

/// A class ends behind where it starts, and inside the pattern.
pub proof fn lemma_class_from(pattern: Seq<char>, k: int, first: bool)
    requires
        0 <= k,
    ensures
        class_from(pattern, k, first) matches Ok((_, end)) ==> k < end <= pattern.len(),
    decreases pattern.len() - k,
{
    if k >= pattern.len() {
    } else if pattern[k] == ']' && !first {
    } else if k + 2 < pattern.len() && pattern[k + 1] == '-' && pattern[k + 2] != ']' {
        if pattern[k] <= pattern[k + 2] {
            lemma_class_from(pattern, k + 3, false);
        }
    } else {
        lemma_class_from(pattern, k + 1, false);
    }
}

/// A piece ends behind where it starts, and inside the pattern.
pub proof fn lemma_piece_at(pattern: Seq<char>, i: int)
    requires
        0 <= i < pattern.len(),
    ensures
        piece_at(pattern, i) matches Ok((_, next)) ==> i < next <= pattern.len(),
{
    lemma_class_from(pattern, i + 1, true);
    lemma_class_from(pattern, i + 2, true);
}

/// The pieces of `pattern` from index `i` on, or why the pattern is refused.
pub open spec fn pieces_from(pattern: Seq<char>, i: int) -> Result<Seq<Piece>, PatternError>
    decreases pattern.len() - i,
    when 0 <= i
    via pieces_from_decreases
{
    if i >= pattern.len() {
        Ok(Seq::empty())
    } else {
        match piece_at(pattern, i) {
            Ok((piece, next)) => match pieces_from(pattern, next) {
                Ok(rest) => Ok(seq![piece] + rest),
                Err(e) => Err(e),
            },
            Err(e) => Err(e),
        }
    }
}

#[via_fn]
proof fn pieces_from_decreases(pattern: Seq<char>, i: int) {
    if i < pattern.len() {
        lemma_piece_at(pattern, i);
    }
}

/// The pieces that `pattern` compiles to, or why it is refused: for the first
/// fault from the left.
pub open spec fn compiled(pattern: Seq<char>) -> Result<Seq<Piece>, PatternError> {
    pieces_from(pattern, 0)
}

/// One piece of a compiled pattern, as it is held in memory.
enum Token {
    Literal(char),
    AnyChar,
    AnyRun,
    AnyPath,
    Class(bool, Vec<(char, char)>),
}

impl View for Token {
    type V = Piece;

    closed spec fn view(&self) -> Piece {
        match self {
            Token::Literal(c) => Piece::Literal(*c),
            Token::AnyChar => Piece::AnyChar,
            Token::AnyRun => Piece::AnyRun,
            Token::AnyPath => Piece::AnyPath,
            Token::Class(negated, ranges) => Piece::Class(*negated, ranges@),
        }
    }
}

impl DeepView for Token {
    type V = Piece;

    closed spec fn deep_view(&self) -> Piece {
        self.view()
    }
}

/// The members `read` in front of what the rest of a class gives.
spec fn with_members(
    read: Seq<(char, char)>,
    rest: Result<(Seq<(char, char)>, int), PatternError>,
) -> Result<(Seq<(char, char)>, int), PatternError> {
    match rest {
        Ok((more, end)) => Ok((read + more, end)),
        Err(e) => Err(e),
    }
}

/// The pieces `read` in front of what the rest of a pattern gives.
spec fn with_pieces(read: Seq<Piece>, rest: Result<Seq<Piece>, PatternError>) -> Result<
    Seq<Piece>,
    PatternError,
> {
    match rest {
        Ok(more) => Ok(read + more),
        Err(e) => Err(e),
    }
}

/// Reads the members of the class that start at `start`, up to its closing bracket.
fn read_class(pattern: &[char], start: usize) -> (outcome: Result<
    (Vec<(char, char)>, usize),
    PatternError,
>)
    requires
        start <= pattern@.len(),
    ensures
        match class_from(pattern@, start as int, true) {
            Ok((members, behind)) => outcome matches Ok((ranges, end)) && ranges@ == members && end
                == behind,
            Err(cause) => outcome matches Err(e) && e == cause,
        },
{
    let ghost whole = class_from(pattern@, start as int, true);
    let mut ranges: Vec<(char, char)> = Vec::new();
    let mut k: usize = start;
    let mut first = true;
    assert(ranges@ + Seq::<(char, char)>::empty() =~= ranges@);
    loop
        invariant
            start <= k <= pattern@.len(),
            whole == class_from(pattern@, start as int, true),
            whole == with_members(ranges@, class_from(pattern@, k as int, first)),
        decreases pattern@.len() - k,
    {
        if k >= pattern.len() {
            return Err(PatternError::UnclosedClass);
        }
        let low = pattern[k];
        if low == ']' && !first {
            assert(ranges@ + Seq::<(char, char)>::empty() =~= ranges@);
            return Ok((ranges, k + 1));
        }
        let ghost read = ranges@;
        if pattern.len() - k > 2 && pattern[k + 1] == '-' && pattern[k + 2] != ']' {
            let high = pattern[k + 2];
            if low > high {
                return Err(PatternError::ReversedRange);
            }
            ranges.push((low, high));
            proof {
                let rest = class_from(pattern@, k + 3, false);
                if let Ok((more, end)) = rest {
                    assert(read + (seq![(low, high)] + more) =~= ranges@ + more);
                }
            }
            k += 3;
        } else {
            ranges.push((low, low));
            proof {
                let rest = class_from(pattern@, k + 1, false);
                if let Ok((more, end)) = rest {
                    assert(read + (seq![(low, low)] + more) =~= ranges@ + more);
                }
            }
            k += 1;
        }
        first = false;
    }
}

/// Reads the piece that starts at index `i`.
fn read_piece(pattern: &[char], i: usize) -> (outcome: Result<(Token, usize), PatternError>)
    requires
        i < pattern@.len(),
    ensures
        match piece_at(pattern@, i as int) {
            Ok((piece, behind)) => outcome matches Ok((token, next)) && token.deep_view() == piece
                && next == behind && i < next <= pattern@.len(),
            Err(cause) => outcome matches Err(e) && e == cause,
        },
{
    let c = pattern[i];
    let more = pattern.len() - i > 1;
    if c == '*' {
        if more && pattern[i + 1] == '*' {
            Ok((Token::AnyPath, i + 2))
        } else {
            Ok((Token::AnyRun, i + 1))
        }
    } else if c == '?' {
        Ok((Token::AnyChar, i + 1))
    } else if c == '\\' {
        if more {
            Ok((Token::Literal(pattern[i + 1]), i + 2))
        } else {
            Err(PatternError::TrailingEscape)
        }
    } else if c == '[' {
        let negated = more && (pattern[i + 1] == '!' || pattern[i + 1] == '^');
        let start = if negated {
            i + 2
        } else {
            i + 1
        };
        proof {
            lemma_class_from(pattern@, start as int, true);
        }
        match read_class(pattern, start) {
            Ok((ranges, end)) => Ok((Token::Class(negated, ranges), end)),
            Err(e) => Err(e),
        }
    } else {
        Ok((Token::Literal(c), i + 1))
    }
}

/// Tests whether `c` lies in one of `ranges`.
fn in_class(ranges: &Vec<(char, char)>, c: char) -> (found: bool)
    ensures
        found == in_ranges(ranges@, c),
{
    let mut k: usize = 0;
    while k < ranges.len()
        invariant
            k <= ranges@.len(),
            forall|j: int| 0 <= j < k ==> !((#[trigger] ranges@[j]).0 <= c <= ranges@[j].1),
        decreases ranges@.len() - k,
    {
        if ranges[k].0 <= c && c <= ranges[k].1 {
            return true;
        }
        k += 1;
    }
    false
}

/// Tests whether `token`, which stands for one character, stands for `c`.
fn accepts(token: &Token, c: char) -> (accepted: bool)
    ensures
        accepted == token.deep_view().accepts(c),
{
    match token {
        Token::Literal(x) => c == *x,
        Token::AnyChar => c != '/',
        Token::Class(negated, ranges) => c != '/' && in_class(ranges, c) != *negated,
        Token::AnyRun => false,
        Token::AnyPath => false,
    }
}

/// Turns the row of answers for the pieces behind index `i` into the row for
/// the pieces from `i` on: `row[j]` says whether they read off the path from `j` on.
fn step_back(
    token: &Token,
    path: &[char],
    row: Vec<bool>,
    Ghost(pieces): Ghost<Seq<Piece>>,
    Ghost(i): Ghost<int>,
) -> (next: Vec<bool>)
    requires
        0 <= i < pieces.len(),
        pieces[i] == token.deep_view(),
        row@.len() == path@.len() + 1,
        forall|j: int| 0 <= j <= path@.len() ==> row@[j] == matches_from(pieces, i + 1, path@, j),
    ensures
        next@.len() == path@.len() + 1,
        forall|j: int| 0 <= j <= path@.len() ==> next@[j] == matches_from(pieces, i, path@, j),
{
    let mut row = row;
    let n = path.len();
    match token {
        Token::AnyRun | Token::AnyPath => {
            let crossing = matches!(token, Token::AnyPath);
            let mut j: usize = n;
            while j > 0
                invariant
                    j <= n == path@.len(),
                    row@.len() == n + 1,
                    0 <= i < pieces.len(),
                    pieces[i] == token.deep_view(),
                    pieces[i].is_run(),
                    crossing == (pieces[i] is AnyPath),
                    forall|k: int| 0 <= k < j ==> row@[k] == matches_from(pieces, i + 1, path@, k),
                    forall|k: int| j <= k <= n ==> row@[k] == matches_from(pieces, i, path@, k),
                decreases j,
            {
                j -= 1;
                let carried = crossing || path[j] != '/';
                let reads = row[j] || (carried && row[j + 1]);
                row.set(j, reads);
            }
            row
        },
        _ => {
            let mut j: usize = 0;
            while j < n
                invariant
                    j <= n == path@.len(),
                    row@.len() == n + 1,
                    0 <= i < pieces.len(),
                    pieces[i] == token.deep_view(),
                    !pieces[i].is_run(),
                    forall|k: int| 0 <= k < j ==> row@[k] == matches_from(pieces, i, path@, k),
                    forall|k: int| j <= k <= n ==> row@[k] == matches_from(pieces, i + 1, path@, k),
                decreases n - j,
            {
                let reads = accepts(token, path[j]) && row[j + 1];
                row.set(j, reads);
                j += 1;
            }
            row.set(n, false);
            row
        },
    }
}

/// A compiled pattern.
pub struct Glob {
    tokens: Vec<Token>,
}

impl View for Glob {
    type V = Seq<Piece>;

    closed spec fn view(&self) -> Seq<Piece> {
        self.tokens.deep_view()
    }
}

impl DeepView for Glob {
    type V = Seq<Piece>;

    open spec fn deep_view(&self) -> Seq<Piece> {
        self@
    }
}

/// The model of the outcome of compiling a pattern.
pub open spec fn pieces_of(outcome: Result<Glob, PatternError>) -> Result<
    Seq<Piece>,
    PatternError,
> {
    match outcome {
        Ok(glob) => Ok(glob@),
        Err(e) => Err(e),
    }
}

impl Glob {
    /// Tests whether the pattern matches `path`.
    pub fn matches(&self, path: &str) -> (matched: bool)
        ensures
            matched == matches_path(self@, path@),
    {
        let chars = chars_of(path);
        self.matches_chars(chars.as_slice())
    }

    /// Tests whether the pattern matches the path made of `path`.
    pub fn matches_chars(&self, path: &[char]) -> (matched: bool)
        ensures
            matched == matches_path(self@, path@),
    {
        let ghost pieces = self@;
        let n = path.len();
        let mut row: Vec<bool> = Vec::new();
        while row.len() < n
            invariant
                row@.len() <= n == path@.len(),
                forall|j: int| 0 <= j < row@.len() ==> !row@[j],
            decreases n - row@.len(),
        {
            row.push(false);
        }
        row.push(true);
        let mut i: usize = self.tokens.len();
        while i > 0
            invariant
                i <= self.tokens@.len(),
                pieces == self@,
                row@.len() == path@.len() + 1,
                forall|j: int|
                    0 <= j <= path@.len() ==> row@[j] == matches_from(pieces, i as int, path@, j),
            decreases i,
        {
            i -= 1;
            row = step_back(&self.tokens[i], path, row, Ghost(pieces), Ghost(i as int));
        }
        row[0]
    }

    /// Compiles `pattern`, or says why it is refused.
    pub fn new(pattern: &str) -> (outcome: Result<Glob, PatternError>)
        ensures
            pieces_of(outcome) == compiled(pattern@),
    {
        let chars = chars_of(pattern);
        let text = chars.as_slice();
        let ghost whole = compiled(pattern@);
        let mut tokens: Vec<Token> = Vec::new();
        let mut i: usize = 0;
        assert(tokens.deep_view() + Seq::<Piece>::empty() =~= tokens.deep_view());
        while i < text.len()
            invariant
                i <= text@.len(),
                text@ == pattern@,
                whole == compiled(pattern@),
                whole == with_pieces(tokens.deep_view(), pieces_from(text@, i as int)),
            decreases text@.len() - i,
        {
            let ghost read = tokens.deep_view();
            match read_piece(text, i) {
                Ok((token, next)) => {
                    let ghost piece = token.deep_view();
                    tokens.push(token);
                    proof {
                        assert(tokens.deep_view() =~= read.push(piece));
                        if let Ok(more) = pieces_from(text@, next as int) {
                            assert(read + (seq![piece] + more) =~= tokens.deep_view() + more);
                        }
                    }
                    i = next;
                },
                Err(e) => {
                    return Err(e);
                },
            }
        }
        assert(tokens.deep_view() + Seq::<Piece>::empty() =~= tokens.deep_view());
        Ok(Glob { tokens })
    }
}

/// A set of compiled patterns.
pub struct PathMatcher {
    globs: Vec<Glob>,
}

impl View for PathMatcher {
    type V = Seq<Seq<Piece>>;

    closed spec fn view(&self) -> Seq<Seq<Piece>> {
        self.globs.deep_view()
    }
}

/// The patterns among `patterns` that compile, compiled, in their order.
pub open spec fn compile_all(patterns: Seq<Seq<char>>) -> Seq<Seq<Piece>>
    decreases patterns.len(),
{
    if patterns.len() == 0 {
        Seq::empty()
    } else {
        let earlier = compile_all(patterns.drop_last());
        match compiled(patterns.last()) {
            Ok(pieces) => earlier.push(pieces),
            Err(_) => earlier,
        }
    }
}

/// Whether one of `globs` matches `path`.
pub open spec fn any_match(globs: Seq<Seq<Piece>>, path: Seq<char>) -> bool {
    exists|k: int| 0 <= k < globs.len() && matches_path(#[trigger] globs[k], path)
}

/// Whether `path` is listed by the optional set `globs`: no set lists nothing.
pub open spec fn listed(globs: Option<Seq<Seq<Piece>>>, path: Seq<char>) -> bool {
    globs matches Some(set) && any_match(set, path)
}

impl PathMatcher {
    /// Compiles `patterns` into one matcher. A pattern that does not compile is
    /// left out; the others are not touched by it.
    pub fn build(patterns: &Vec<String>) -> (matcher: PathMatcher)
        ensures
            matcher@ == compile_all(patterns.deep_view()),
    {
        let ghost all = patterns.deep_view();
        let mut globs: Vec<Glob> = Vec::new();
        let mut i: usize = 0;
        assert(all.take(0) =~= Seq::<Seq<char>>::empty());
        assert(globs.deep_view() =~= Seq::<Seq<Piece>>::empty());
        while i < patterns.len()
            invariant
                i <= patterns@.len(),
                all == patterns.deep_view(),
                globs.deep_view() == compile_all(all.take(i as int)),
            decreases patterns@.len() - i,
        {
            let ghost held = globs.deep_view();
            proof {
                assert(all.take(i + 1).drop_last() =~= all.take(i as int));
                assert(all.take(i + 1).last() == patterns@[i as int]@);
            }
            match Glob::new(patterns[i].as_str()) {
                Ok(glob) => {
                    let ghost pieces = glob@;
                    globs.push(glob);
                    assert(globs.deep_view() =~= held.push(pieces));
                },
                Err(_) => {},
            }
            i += 1;
        }
        assert(all.take(i as int) =~= all);
        PathMatcher { globs }
    }

    /// The number of patterns that compiled. What is missing from the number
    /// of patterns handed to `build` was left out as malformed.
    pub fn len(&self) -> (count: usize)
        ensures
            count == self@.len(),
    {
        self.globs.len()
    }

    /// Tests whether one of the patterns matches `path`. A matcher without
    /// patterns matches nothing.
    pub fn is_match(&self, path: &str) -> (matched: bool)
        ensures
            matched == any_match(self@, path@),
    {
        let chars = chars_of(path);
        let mut k: usize = 0;
        while k < self.globs.len()
            invariant
                k <= self.globs@.len(),
                chars@ == path@,
                forall|j: int| 0 <= j < k ==> !matches_path(#[trigger] self@[j], path@),
            decreases self.globs@.len() - k,
        {
            if self.globs[k].matches_chars(chars.as_slice()) {
                assert(self@[k as int] == self.globs@[k as int]@);
                return true;
            }
            assert(self@[k as int] == self.globs@[k as int]@);
            k += 1;
        }
        false
    }
}

/// The compiled patterns of the optional matcher.
pub open spec fn globs_of(matcher: Option<&PathMatcher>) -> Option<Seq<Seq<Piece>>> {
    match matcher {
        Some(m) => Some(m@),
        None => None,
    }
}

/// Tests whether `path` is listed by the optional matcher.
pub fn is_listed(matcher: Option<&PathMatcher>, path: &str) -> (found: bool)
    ensures
        found == listed(globs_of(matcher), path@),
{
    match matcher {
        Some(m) => m.is_match(path),
        None => false,
    }
}

/// A pattern that does not compile has no part in the matcher: the set of
/// patterns with it and the set without it compile to the same.
pub proof fn lemma_malformed_is_ignored(patterns: Seq<Seq<char>>, at: int)
    requires
        0 <= at < patterns.len(),
        compiled(patterns[at]) is Err,
    ensures
        compile_all(patterns) == compile_all(patterns.remove(at)),
    decreases patterns.len(),
{
    if at == patterns.len() - 1 {
        assert(patterns.remove(at) =~= patterns.drop_last());
    } else {
        lemma_malformed_is_ignored(patterns.drop_last(), at);
        assert(patterns.remove(at).drop_last() =~= patterns.drop_last().remove(at));
        assert(patterns.remove(at).last() == patterns.last());
    }
}

/// A path is matched by the matcher built from `patterns` exactly if one of the
/// patterns compiles and matches it: what the other patterns are, well-formed
/// or not, does not matter to that pattern.
pub proof fn lemma_match_is_by_some_pattern(patterns: Seq<Seq<char>>, path: Seq<char>)
    ensures
        any_match(compile_all(patterns), path) <==> exists|k: int|
            0 <= k < patterns.len() && (compiled(#[trigger] patterns[k]) matches Ok(pieces)
                && matches_path(pieces, path)),
    decreases patterns.len(),
{
    let globs = compile_all(patterns);
    if patterns.len() > 0 {
        let shorter = patterns.drop_last();
        let earlier = compile_all(shorter);
        lemma_match_is_by_some_pattern(shorter, path);
        if any_match(globs, path) {
            let g = choose|g: int| 0 <= g < globs.len() && matches_path(#[trigger] globs[g], path);
            if g < earlier.len() {
                assert(matches_path(earlier[g], path));
                let k = choose|k: int|
                    0 <= k < shorter.len() && (compiled(#[trigger] shorter[k]) matches Ok(pieces)
                        && matches_path(pieces, path));
                assert(patterns[k] == shorter[k]);
            } else {
                assert(compiled(patterns[patterns.len() - 1]) matches Ok(pieces) && matches_path(
                    pieces,
                    path,
                ));
            }
        }
        if exists|k: int|
            0 <= k < patterns.len() && (compiled(#[trigger] patterns[k]) matches Ok(pieces)
                && matches_path(pieces, path)) {
            let k = choose|k: int|
                0 <= k < patterns.len() && (compiled(#[trigger] patterns[k]) matches Ok(pieces)
                    && matches_path(pieces, path));
            if k < shorter.len() {
                assert(shorter[k] == patterns[k]);
                let g = choose|g: int|
                    0 <= g < earlier.len() && matches_path(#[trigger] earlier[g], path);
                assert(globs[g] == earlier[g]);
            } else {
                assert(matches_path(globs[globs.len() - 1], path));
            }
        }
    }
}

} // verus!
