use vstd::prelude::*;

verus! {

/// The eight symbols of the language.
#[derive(Debug, Clone, Copy, PartialEq, Eq, Structural)]
pub enum BfTokenType {
    Add,
    Dec,
    IncrementPointer,
    DecrementPointer,
    LoopStart,
    LoopEnd,
    Input,
    Output,
}

/// Where a token stands in the source text, both counted from one.
#[derive(Debug, Clone, Copy, PartialEq, Eq, Structural)]
pub struct TokenPosition {
    pub line: usize,
    pub column: usize,
}

/// The tokens of a program, in source order; `positions[k]` belongs to `token_types[k]`.
pub struct Tokens {
    pub token_types: Vec<BfTokenType>,
    pub positions: Vec<TokenPosition>,
}

/// The token that a character stands for, if any.
pub open spec fn token_kind(c: char) -> Option<BfTokenType> {
    if c == '+' {
        Some(BfTokenType::Add)
    } else if c == '-' {
        Some(BfTokenType::Dec)
    } else if c == '>' {
        Some(BfTokenType::IncrementPointer)
    } else if c == '<' {
        Some(BfTokenType::DecrementPointer)
    } else if c == '[' {
        Some(BfTokenType::LoopStart)
    } else if c == ']' {
        Some(BfTokenType::LoopEnd)
    } else if c == ',' {
        Some(BfTokenType::Input)
    } else if c == '.' {
        Some(BfTokenType::Output)
    } else {
        None
    }
}

/// The character that a token is written as.
pub open spec fn symbol_of(t: BfTokenType) -> char {
    match t {
        BfTokenType::Add => '+',
        BfTokenType::Dec => '-',
        BfTokenType::IncrementPointer => '>',
        BfTokenType::DecrementPointer => '<',
        BfTokenType::LoopStart => '[',
        BfTokenType::LoopEnd => ']',
        BfTokenType::Input => ',',
        BfTokenType::Output => '.',
    }
}

pub open spec fn is_line_break(c: char) -> bool {
    c == '\n' || c == '\r'
}

/// `\n\r` and `\r\n` each count as one line break.
pub open spec fn is_break_pair(a: char, b: char) -> bool {
    (a == '\n' && b == '\r') || (a == '\r' && b == '\n')
}

/// Whether the character at `j` is the second half of a two-character line break.
/// Pairs are taken greedily from the left, so in `\n\r\n` only the first two pair up.
pub open spec fn closes_break_pair(s: Seq<char>, j: int) -> bool
    decreases j,
{
    if 0 < j < s.len() {
        is_break_pair(s[j - 1], s[j]) && !closes_break_pair(s, j - 1)
    } else {
        false
    }
}

/// Line and column of the character at index `j` of `s` (for `j == s.len()`, of the end).
pub open spec fn line_col(s: Seq<char>, j: int) -> (int, int)
    decreases j,
{
    if j <= 0 {
        (1, 1)
    } else {
        let (l, c) = line_col(s, j - 1);
        if closes_break_pair(s, j - 1) {
            (l, c)
        } else if is_line_break(s[j - 1]) {
            (l + 1, 1)
        } else {
            (l, c + 1)
        }
    }
}

/// The tokens of the first `n` characters of `s`, each with its kind, line and column.
pub open spec fn tokens_upto(s: Seq<char>, n: int) -> Seq<(BfTokenType, int, int)>
    decreases n,
{
    if n <= 0 {
        seq![]
    } else {
        let prev = tokens_upto(s, n - 1);
        match token_kind(s[n - 1]) {
            Some(k) => prev.push((k, line_col(s, n - 1).0, line_col(s, n - 1).1)),
            None => prev,
        }
    }
}

/// The tokens of a whole source text.
pub open spec fn lexed(s: Seq<char>) -> Seq<(BfTokenType, int, int)> {
    tokens_upto(s, s.len() as int)
}

impl Tokens {
    pub open spec fn wf(&self) -> bool {
        self.token_types.len() == self.positions.len()
    }

    /// Each token as its kind, line and column.
    pub open spec fn view(&self) -> Seq<(BfTokenType, int, int)> {
        Seq::new(
            self.token_types.len() as nat,
            |k: int|
                (
                    self.token_types@[k],
                    self.positions@[k].line as int,
                    self.positions@[k].column as int,
                ),
        )
    }
}

proof fn lemma_tokens_prefix(s: Seq<char>, n: int, m: int)
    requires
        0 <= n <= m,
    ensures
        tokens_upto(s, n).len() <= tokens_upto(s, m).len(),
        tokens_upto(s, n) == tokens_upto(s, m).take(tokens_upto(s, n).len() as int),
    decreases m,
{
    if n < m {
        lemma_tokens_prefix(s, n, m - 1);
        assert(tokens_upto(s, n) =~= tokens_upto(s, m).take(tokens_upto(s, n).len() as int));
    } else {
        assert(tokens_upto(s, n) =~= tokens_upto(s, m).take(tokens_upto(s, n).len() as int));
    }
}

proof fn lemma_tokens_come_from_source(s: Seq<char>, n: int, k: int)
    requires
        0 <= n <= s.len(),
        0 <= k < tokens_upto(s, n).len(),
    ensures
        exists|j: int|
            0 <= j < n && s[j] == symbol_of(#[trigger] tokens_upto(s, n)[k].0) && (
            tokens_upto(s, n)[k].1, tokens_upto(s, n)[k].2) == line_col(s, j),
    decreases n,
{
    let prev = tokens_upto(s, n - 1);
    if k < prev.len() {
        lemma_tokens_come_from_source(s, n - 1, k);
        let j = choose|j: int|
            0 <= j < n - 1 && s[j] == symbol_of(#[trigger] prev[k].0) && (prev[k].1, prev[k].2)
                == line_col(s, j);
        assert(tokens_upto(s, n)[k] == prev[k]);
        assert(0 <= j < n && s[j] == symbol_of(tokens_upto(s, n)[k].0));
    } else {
        assert(s[n - 1] == symbol_of(tokens_upto(s, n)[k].0));
    }
}

/// Every token records where its symbol stands: the token made from the symbol at index `j`
/// is the one that has as many symbols before it, and its line and column are those of
/// index `j` counted afresh from the text, line breaks of one or two characters included.
/// Conversely, each token's position is that of a source character written as its symbol.
pub proof fn lemma_positions_round_trip(s: Seq<char>)
    ensures
        forall|j: int|
            #![trigger tokens_upto(s, j)]
            0 <= j < s.len() && token_kind(s[j]) is Some ==> {
                &&& tokens_upto(s, j).len() < lexed(s).len()
                &&& lexed(s)[tokens_upto(s, j).len() as int] == (
                    token_kind(s[j])->Some_0,
                    line_col(s, j).0,
                    line_col(s, j).1,
                )
            },
        forall|k: int|
            0 <= k < lexed(s).len() ==> exists|j: int|
                0 <= j < s.len() && s[j] == symbol_of(#[trigger] lexed(s)[k].0) && (
                lexed(s)[k].1, lexed(s)[k].2) == line_col(s, j),
{
    assert forall|j: int|
        #![trigger tokens_upto(s, j)]
        0 <= j < s.len() && token_kind(s[j]) is Some implies {
            &&& tokens_upto(s, j).len() < lexed(s).len()
            &&& lexed(s)[tokens_upto(s, j).len() as int] == (
                token_kind(s[j])->Some_0,
                line_col(s, j).0,
                line_col(s, j).1,
            )
        } by {
        lemma_tokens_prefix(s, j + 1, s.len() as int);
        let k = tokens_upto(s, j).len() as int;
        assert(tokens_upto(s, j + 1)[k] == lexed(s).take(tokens_upto(s, j + 1).len() as int)[k]);
    }
    assert forall|k: int| 0 <= k < lexed(s).len() implies exists|j: int|
        0 <= j < s.len() && s[j] == symbol_of(#[trigger] lexed(s)[k].0) && (lexed(s)[k].1, lexed(
            s,
        )[k].2) == line_col(s, j) by {
        lemma_tokens_come_from_source(s, s.len() as int, k);
    }
}

/// How many line breaks begin among the first `n` characters (a two-character break counts once).
pub open spec fn break_events(s: Seq<char>, n: int) -> int
    decreases n,
{
    if n <= 0 {
        0
    } else {
        break_events(s, n - 1) + if is_line_break(s[n - 1]) && !closes_break_pair(s, n - 1) {
            1int
        } else {
            0int
        }
    }
}

/// Positions as the text split into lines shows them: the line of index `j` is one more than
/// the line breaks that begin before it, and its column `c` counts back to the start of that
/// line, which is the start of the text or follows a line-break character, with no line
/// break in between.
pub proof fn lemma_line_col_counts_lines(s: Seq<char>, j: int)
    requires
        0 <= j <= s.len(),
    ensures
        line_col(s, j).0 == 1 + break_events(s, j),
        1 <= line_col(s, j).1 <= j + 1,
        forall|i: int| j - line_col(s, j).1 + 1 <= i < j ==> !is_line_break(#[trigger] s[i]),
        j - line_col(s, j).1 + 1 == 0 || is_line_break(s[j - line_col(s, j).1]),
    decreases j,
{
    if j > 0 {
        lemma_line_col_counts_lines(s, j - 1);
        let k = j - 1;
        if closes_break_pair(s, k) {
            assert(is_line_break(s[k - 1]) && !closes_break_pair(s, k - 1));
            assert(line_col(s, k).1 == 1);
            assert(is_line_break(s[k]));
        }
    }
}

proof fn lemma_line_col_bound(s: Seq<char>, j: int)
    requires
        0 <= j,
    ensures
        1 <= line_col(s, j).0 <= j + 1,
        1 <= line_col(s, j).1 <= j + 1,
    decreases j,
{
    if j > 0 {
        lemma_line_col_bound(s, j - 1);
    }
}

fn token_kind_exec(c: char) -> (r: Option<BfTokenType>)
    ensures
        r == token_kind(c),
{
    match c {
        '+' => Some(BfTokenType::Add),
        '-' => Some(BfTokenType::Dec),
        '>' => Some(BfTokenType::IncrementPointer),
        '<' => Some(BfTokenType::DecrementPointer),
        '[' => Some(BfTokenType::LoopStart),
        ']' => Some(BfTokenType::LoopEnd),
        ',' => Some(BfTokenType::Input),
        '.' => Some(BfTokenType::Output),
        _ => None,
    }
}

/// Splits source text into tokens; every character other than the eight symbols is skipped.
pub fn lex(contents: &str) -> (t: Tokens)
    requires
        contents@.len() < usize::MAX,
    ensures
        t.wf(),
        t@ == lexed(contents@),
{
    let ghost s = contents@;
    let mut token_types: Vec<BfTokenType> = Vec::new();
    let mut positions: Vec<TokenPosition> = Vec::new();
    let mut line: usize = 1;
    let mut column: usize = 1;
    // whether the previous character began a line break that the next one may complete
    let mut pair_open: bool = false;
    let mut prev: char = ' ';
    for c in it: contents.chars()
        invariant
            it.seq() == s,
            s.len() < usize::MAX,
            token_types.len() == positions.len(),
            (line as int, column as int) == line_col(s, it.index() as int),
            pair_open == (it.index() > 0 && is_line_break(s[it.index() - 1]) && !closes_break_pair(
                s,
                it.index() - 1,
            )),
            pair_open ==> prev == s[it.index() - 1],
            Seq::new(
                token_types.len() as nat,
                |k: int| (token_types@[k], positions@[k].line as int, positions@[k].column as int),
            ) == tokens_upto(s, it.index() as int),
    {
        let ghost i = it.index() as int;
        proof {
            lemma_line_col_bound(s, i);
        }
        assert(c == s[i]);
        if pair_open && ((prev == '\n' && c == '\r') || (prev == '\r' && c == '\n')) {
            pair_open = false;
        } else if c == '\n' || c == '\r' {
            line = line + 1;
            column = 1;
            pair_open = true;
            prev = c;
        } else {
            match token_kind_exec(c) {
                Some(k) => {
                    token_types.push(k);
                    positions.push(TokenPosition { line, column });
                },
                None => {},
            }
            column = column + 1;
            pair_open = false;
        }
        assert(Seq::new(
            token_types.len() as nat,
            |k: int| (token_types@[k], positions@[k].line as int, positions@[k].column as int),
        ) =~= tokens_upto(s, i + 1));
    }
    Tokens { token_types, positions }
}

} // verus!
