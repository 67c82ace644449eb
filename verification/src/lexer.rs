//! The tokenizer: turns a sequence of characters into normalized terms.
//!
//! A term is a maximal run of decimal digits (kept as written), a maximal run
//! of alphanumeric characters starting with an alphabetic one (ASCII
//! case-folded to upper case), or a single character of any other kind.
//! Leading whitespace before each term is skipped.
use vstd::prelude::*;
use vstd::slice::slice_subrange;

verus! {

/// Whether `c` is classified as whitespace by `char::is_whitespace`
/// (Unicode `White_Space` property).
pub uninterp spec fn whitespace_char(c: char) -> bool;

/// Whether `c` is classified as numeric by `char::is_numeric`
/// (Unicode number category).
pub uninterp spec fn numeric_char(c: char) -> bool;

/// Whether `c` is classified as alphabetic by `char::is_alphabetic`
/// (Unicode letter category).
pub uninterp spec fn alphabetic_char(c: char) -> bool;

/// `char::is_alphanumeric` is documented as exactly
/// `is_alphabetic() || is_numeric()`.
pub open spec fn alphanumeric_char(c: char) -> bool {
    alphabetic_char(c) || numeric_char(c)
}

/// ASCII upper-casing: `'a'..='z'` map to `'A'..='Z'`, everything else is
/// unchanged, as `char::to_ascii_uppercase` documents.
pub open spec fn ascii_uppercase_char(c: char) -> char {
    if 'a' <= c && c <= 'z' {
        ((c as u32) - 32) as char
    } else {
        c
    }
}

/// Relies on `char::is_whitespace`: the Unicode whitespace classification of
/// a character, a function of the character alone.
pub assume_specification[ char::is_whitespace ](c: char) -> (r: bool)
    ensures
        r == whitespace_char(c),
;

/// Relies on `char::is_numeric`: the Unicode numeric classification of a
/// character, a function of the character alone.
pub assume_specification[ char::is_numeric ](c: char) -> (r: bool)
    ensures
        r == numeric_char(c),
;

/// Relies on `char::is_alphabetic`: the Unicode alphabetic classification of
/// a character, a function of the character alone.
pub assume_specification[ char::is_alphabetic ](c: char) -> (r: bool)
    ensures
        r == alphabetic_char(c),
;

/// Relies on `char::is_alphanumeric`, documented as equivalent to
/// `is_alphabetic(self) || is_numeric(self)`.
pub assume_specification[ char::is_alphanumeric ](c: char) -> (r: bool)
    ensures
        r == alphanumeric_char(c),
;

/// Relies on `char::to_ascii_uppercase`: maps `'a'..='z'` to `'A'..='Z'` and
/// leaves every other character unchanged.
pub assume_specification[ char::to_ascii_uppercase ](c: &char) -> (r: char)
    ensures
        r == ascii_uppercase_char(*c),
;

/// Relies on `String::push`: appends exactly the given character to the end
/// of the string.
#[verifier::external_body]
fn push_char(s: &mut String, c: char)
    ensures
        final(s)@ == old(s)@.push(c),
{
    s.push(c);
}

/// Length of the maximal prefix of `s` whose characters all satisfy `p`.
pub open spec fn run_len(s: Seq<char>, p: spec_fn(char) -> bool) -> nat
    decreases s.len(),
{
    if s.len() > 0 && p(s[0]) {
        (1 + run_len(s.skip(1), p)) as nat
    } else {
        0
    }
}

/// The predicate selecting a run of digits.
pub open spec fn numeric_pred() -> spec_fn(char) -> bool {
    |c: char| numeric_char(c)
}

/// The predicate selecting a run of alphanumeric characters.
pub open spec fn alphanumeric_pred() -> spec_fn(char) -> bool {
    |c: char| alphanumeric_char(c)
}

/// The sequence of normalized terms of `s`, in order.
pub open spec fn tokens_of(s: Seq<char>) -> Seq<Seq<char>>
    decreases s.len(),
    via tokens_of_decreases
{
    if s.len() == 0 {
        Seq::empty()
    } else if whitespace_char(s[0]) {
        tokens_of(s.skip(1))
    } else if numeric_char(s[0]) {
        let n = run_len(s, numeric_pred());
        seq![s.take(n as int)] + tokens_of(s.skip(n as int))
    } else if alphabetic_char(s[0]) {
        let n = run_len(s, alphanumeric_pred());
        seq![s.take(n as int).map_values(|c: char| ascii_uppercase_char(c))] + tokens_of(
            s.skip(n as int),
        )
    } else {
        seq![seq![s[0]]] + tokens_of(s.skip(1))
    }
}

#[via_fn]
proof fn tokens_of_decreases(s: Seq<char>) {
    if s.len() > 0 && !whitespace_char(s[0]) {
        if numeric_char(s[0]) {
            lemma_run_len_props(s, numeric_pred());
            assert(numeric_pred()(s[0]));
            assert(run_len(s, numeric_pred()) >= 1);
        } else if alphabetic_char(s[0]) {
            lemma_run_len_props(s, alphanumeric_pred());
            assert(alphanumeric_pred()(s[0]));
            assert(run_len(s, alphanumeric_pred()) >= 1);
        }
    }
}

/// The views of a sequence of owned strings.
pub open spec fn seq_views(s: Seq<String>) -> Seq<Seq<char>> {
    s.map_values(|x: String| x@)
}

pub proof fn lemma_run_len_props(s: Seq<char>, p: spec_fn(char) -> bool)
    ensures
        run_len(s, p) <= s.len(),
        forall|i: int| 0 <= i < run_len(s, p) ==> p(s[i]),
        run_len(s, p) < s.len() ==> !p(s[run_len(s, p) as int]),
    decreases s.len(),
{
    if s.len() > 0 && p(s[0]) {
        lemma_run_len_props(s.skip(1), p);
        assert forall|i: int| 0 <= i < run_len(s, p) implies p(s[i]) by {
            if i > 0 {
                assert(p(s.skip(1)[i - 1]));
            }
        }
    }
}

/// The exact run length is pinned down by a prefix of satisfying characters
/// followed by the end of the sequence or a failing character.
pub proof fn lemma_run_len_exact(s: Seq<char>, p: spec_fn(char) -> bool, n: int)
    requires
        0 <= n <= s.len(),
        forall|i: int| 0 <= i < n ==> p(s[i]),
        n < s.len() ==> !p(s[n]),
    ensures
        run_len(s, p) == n,
    decreases n,
{
    if n == 0 {
    } else {
        assert(p(s[0]));
        lemma_run_len_exact(s.skip(1), p, n - 1);
    }
}

/// Tokenization is a function of the content alone: any two token sequences
/// obtained from the same character sequence are identical.
pub proof fn lemma_tokenization_deterministic(
    content: Seq<char>,
    first: Seq<Seq<char>>,
    second: Seq<Seq<char>>,
)
    requires
        first == tokens_of(content),
        second == tokens_of(content),
    ensures
        first == second,
{
}

/// A cursor over a character slice that yields one normalized term at a time.
pub struct Lexer<'a> {
    content: &'a [char],
}

impl<'a> View for Lexer<'a> {
    type V = Seq<char>;

    closed spec fn view(&self) -> Seq<char> {
        self.content@
    }
}

impl<'a> Lexer<'a> {
    pub fn new(content: &'a [char]) -> (l: Lexer<'a>)
        ensures
            l@ == content@,
    {
        Lexer { content }
    }

    /// Discards leading whitespace; the token sequence is unchanged.
    fn trim_left(&mut self)
        ensures
            tokens_of(final(self)@) == tokens_of(old(self)@),
            final(self)@.len() <= old(self)@.len(),
            final(self)@.len() > 0 ==> !whitespace_char(final(self)@[0]),
    {
        while !self.content.is_empty() && self.content[0].is_whitespace()
            invariant
                tokens_of(self.content@) == tokens_of(old(self)@),
                self.content@.len() <= old(self)@.len(),
            decreases self.content@.len(),
        {
            let ghost s = self.content@;
            self.content = slice_subrange(self.content, 1, self.content.len());
            proof {
                assert(self.content@ =~= s.skip(1));
            }
        }
    }

    /// Removes the first `n` characters and returns them.
    fn chop(&mut self, n: usize) -> (token: &'a [char])
        requires
            n <= old(self)@.len(),
        ensures
            token@ == old(self)@.take(n as int),
            final(self)@ == old(self)@.skip(n as int),
    {
        let token = slice_subrange(self.content, 0, n);
        self.content = slice_subrange(self.content, n, self.content.len());
        proof {
            assert(token@ =~= old(self)@.take(n as int));
            assert(self.content@ =~= old(self)@.skip(n as int));
        }
        token
    }

    /// Removes and returns the maximal prefix whose characters satisfy the
    /// predicate, which must implement the ghost predicate `p`.
    fn chop_while<P: Fn(char) -> bool>(
        &mut self,
        predicate: P,
        Ghost(p): Ghost<spec_fn(char) -> bool>,
    ) -> (token: &'a [char])
        requires
            forall|c: char| #[trigger] call_requires(predicate, (c,)),
            forall|c: char, r: bool| #[trigger] call_ensures(predicate, (c,), r) ==> r == p(c),
        ensures
            token@ == old(self)@.take(run_len(old(self)@, p) as int),
            final(self)@ == old(self)@.skip(run_len(old(self)@, p) as int),
    {
        let mut n: usize = 0;
        while n < self.content.len() && predicate(self.content[n])
            invariant
                self.content == old(self).content,
                n <= self.content@.len(),
                forall|i: int| 0 <= i < n ==> p(self.content@[i]),
                forall|c: char| #[trigger] call_requires(predicate, (c,)),
                forall|c: char, r: bool| #[trigger] call_ensures(predicate, (c,), r) ==> r == p(
                    c,
                ),
            decreases self.content@.len() - n,
        {
            n = n + 1;
        }
        proof {
            lemma_run_len_exact(self.content@, p, n as int);
        }
        self.chop(n)
    }

    /// Yields the next term, or `None` once the input is exhausted.
    ///
    /// The result is pinned to the term sequence `tokens_of` of the remaining
    /// input: a `Some` hands out its first term and leaves the rest, a `None`
    /// means there are no terms left.
    pub fn next_token(&mut self) -> (t: Option<String>)
        ensures
            match t {
                Some(tok) => tokens_of(old(self)@).len() > 0 && tok@ == tokens_of(old(self)@)[0]
                    && tokens_of(final(self)@) == tokens_of(old(self)@).skip(1)
                    && final(self)@.len() < old(self)@.len(),
                None => tokens_of(old(self)@).len() == 0 && final(self)@.len() == 0,
            },
    {
        self.trim_left();
        let ghost s = self.content@;
        if self.content.len() == 0 {
            return None;
        }
        let c0 = self.content[0];
        if c0.is_numeric() {
            proof {
                lemma_run_len_props(s, numeric_pred());
                assert(run_len(s, numeric_pred()) >= 1);
            }
            let token = self.chop_while(
                (|x: char| -> (r: bool)
                    ensures
                        r == numeric_char(x),
                    { x.is_numeric() }),
                Ghost(numeric_pred()),
            );
            let ghost n = run_len(s, numeric_pred()) as int;
            let mut result = String::new();
            let mut i: usize = 0;
            while i < token.len()
                invariant
                    token@ == s.take(n),
                    i <= token@.len(),
                    result@ == token@.take(i as int),
                decreases token@.len() - i,
            {
                let ghost r0 = result@;
                push_char(&mut result, token[i]);
                i = i + 1;
                proof {
                    assert(token@.take(i as int) =~= r0.push(token@[i - 1]));
                }
            }
            proof {
                assert(result@ =~= token@);
                assert(tokens_of(s) == seq![s.take(n)] + tokens_of(s.skip(n)));
                assert(tokens_of(s)[0] == s.take(n));
                assert(tokens_of(s).skip(1) =~= tokens_of(s.skip(n)));
            }
            Some(result)
        } else if c0.is_alphabetic() {
            proof {
                lemma_run_len_props(s, alphanumeric_pred());
                assert(run_len(s, alphanumeric_pred()) >= 1);
            }
            let token = self.chop_while(
                (|x: char| -> (r: bool)
                    ensures
                        r == alphanumeric_char(x),
                    { x.is_alphanumeric() }),
                Ghost(alphanumeric_pred()),
            );
            let ghost n = run_len(s, alphanumeric_pred()) as int;
            let mut result = String::new();
            let mut i: usize = 0;
            while i < token.len()
                invariant
                    token@ == s.take(n),
                    i <= token@.len(),
                    result@ == token@.take(i as int).map_values(
                        |c: char| ascii_uppercase_char(c),
                    ),
                decreases token@.len() - i,
            {
                let ghost r0 = result@;
                let up = token[i].to_ascii_uppercase();
                push_char(&mut result, up);
                i = i + 1;
                proof {
                    assert(token@.take(i as int).map_values(|c: char| ascii_uppercase_char(c))
                        =~= r0.push(ascii_uppercase_char(token@[i - 1])));
                }
            }
            proof {
                assert(result@ =~= token@.map_values(|c: char| ascii_uppercase_char(c)));
                assert(token@.take(token@.len() as int) =~= token@);
                assert(tokens_of(s) == seq![s.take(n).map_values(|c: char| ascii_uppercase_char(c))]
                    + tokens_of(s.skip(n)));
                assert(tokens_of(s)[0] == s.take(n).map_values(|c: char| ascii_uppercase_char(c)));
                assert(tokens_of(s).skip(1) =~= tokens_of(s.skip(n)));
            }
            Some(result)
        } else {
            let token = self.chop(1);
            let mut result = String::new();
            push_char(&mut result, token[0]);
            proof {
                assert(token@ =~= seq![s[0]]);
                assert(result@ =~= seq![s[0]]);
                assert(tokens_of(s) == seq![seq![s[0]]] + tokens_of(s.skip(1)));
                assert(tokens_of(s)[0] == seq![s[0]]);
                assert(tokens_of(s).skip(1) =~= tokens_of(s.skip(1)));
            }
            Some(result)
        }
    }
}

/// Tokenizes the whole input: the returned terms are exactly
/// `tokens_of(content@)`, in order.
pub fn tokenize_all(content: &[char]) -> (tokens: Vec<String>)
    ensures
        seq_views(tokens@) == tokens_of(content@),
{
    let mut lexer = Lexer::new(content);
    let mut tokens: Vec<String> = Vec::new();
    proof {
        assert(seq_views(tokens@) + tokens_of(lexer@) =~= tokens_of(content@));
    }
    loop
        invariant_except_break
            seq_views(tokens@) + tokens_of(lexer@) == tokens_of(content@),
        ensures
            seq_views(tokens@) == tokens_of(content@),
        decreases lexer@.len(),
    {
        let ghost pre = lexer@;
        let ghost toks0 = tokens@;
        match lexer.next_token() {
            Some(tok) => {
                tokens.push(tok);
                proof {
                    assert(seq_views(tokens@) =~= seq_views(toks0).push(tokens@.last()@));
                    assert(seq_views(tokens@) + tokens_of(lexer@) =~= seq_views(toks0)
                        + tokens_of(pre));
                }
            },
            None => {
                proof {
                    assert(seq_views(tokens@) + tokens_of(lexer@) =~= seq_views(tokens@));
                }
                break ;
            },
        }
    }
    tokens
}

} // verus!
