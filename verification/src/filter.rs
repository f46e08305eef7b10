//! Path filter: parses a filter expression into an "include all" flag, an
//! extension set and an explicit file-name set, and decides whether a
//! directory entry qualifies for tracking.
//!
//! The expression grammar is a `;`/`,`-separated list of tokens, each of the
//! form `*.*` (include everything), `*.ext` (an extension) or `name.ext`
//! (an exact file name), where `ext` and `name` are nonempty ASCII
//! alphanumeric runs. An empty expression includes everything.
use vstd::prelude::*;

verus! {

/// Errors raised synchronously at construction time: a root that is not a
/// directory, or a malformed filter expression.
#[derive(Debug, Clone, Copy, PartialEq, Eq, Structural)]
pub enum ConfigError {
    NotADirectory,
    BadFilter,
}

pub open spec fn is_sep_char(c: char) -> bool {
    c == ';' || c == ','
}

pub open spec fn is_alnum_char(c: char) -> bool {
    (97 <= c as u32 && c as u32 <= 122)  // 'a' ..= 'z'
    || (65 <= c as u32 && c as u32 <= 90)  // 'A' ..= 'Z'
    || (48 <= c as u32 && c as u32 <= 57)  // '0' ..= '9'
}

pub open spec fn all_alnum(s: Seq<char>) -> bool {
    forall|i: int| 0 <= i < s.len() ==> is_alnum_char(#[trigger] s[i])
}

/// The token `*.*`.
pub open spec fn is_all_files_token(t: Seq<char>) -> bool {
    t.len() == 3 && t[0] == '*' && t[1] == '.' && t[2] == '*'
}

/// A token of the form `*.ext` with `ext` nonempty alphanumeric.
pub open spec fn is_extension_token(t: Seq<char>) -> bool {
    t.len() >= 3 && t[0] == '*' && t[1] == '.' && all_alnum(t.skip(2))
}

/// A token of the form `name.ext`, a single dot with nonempty alphanumeric
/// runs on both sides.
pub open spec fn is_file_name_token(t: Seq<char>) -> bool {
    exists|i: int|
        1 <= i < t.len() - 1 && t[i] == '.' && all_alnum(t.take(i)) && all_alnum(t.skip(i + 1))
}

pub open spec fn valid_token(t: Seq<char>) -> bool {
    is_all_files_token(t) || is_extension_token(t) || is_file_name_token(t)
}

/// Index of the first separator at or after position `i`, or the length of
/// `s` when there is none.
pub open spec fn first_sep_from(s: Seq<char>, i: int) -> int
    decreases s.len() - i,
{
    if i < 0 || i >= s.len() {
        s.len() as int
    } else if is_sep_char(s[i]) {
        i
    } else {
        first_sep_from(s, i + 1)
    }
}

/// The `;`/`,`-separated tokens of `s`, in order. Adjacent separators yield
/// empty tokens, which no token form accepts.
pub open spec fn split_tokens(s: Seq<char>) -> Seq<Seq<char>>
    decreases s.len(),
{
    let i = first_sep_from(s, 0);
    if 0 <= i < s.len() {
        seq![s.take(i)] + split_tokens(s.skip(i + 1))
    } else {
        seq![s]
    }
}

pub open spec fn all_tokens_valid(ts: Seq<Seq<char>>) -> bool {
    forall|k: int| 0 <= k < ts.len() ==> valid_token(#[trigger] ts[k])
}

/// A filter expression is well formed when it is empty or every one of its
/// tokens matches the grammar.
pub open spec fn filter_expr_valid(s: Seq<char>) -> bool {
    s.len() == 0 || all_tokens_valid(split_tokens(s))
}

pub open spec fn has_all_files_token(ts: Seq<Seq<char>>) -> bool {
    exists|k: int| 0 <= k < ts.len() && is_all_files_token(#[trigger] ts[k])
}

/// The extensions named by `*.ext` tokens, in token order.
pub open spec fn extensions_of(ts: Seq<Seq<char>>) -> Seq<Seq<char>>
    decreases ts.len(),
{
    if ts.len() == 0 {
        Seq::empty()
    } else {
        (if is_extension_token(ts[0]) {
            seq![ts[0].skip(2)]
        } else {
            Seq::empty()
        }) + extensions_of(ts.drop_first())
    }
}

/// The exact file names named by `name.ext` tokens, in token order.
pub open spec fn file_names_of(ts: Seq<Seq<char>>) -> Seq<Seq<char>>
    decreases ts.len(),
{
    if ts.len() == 0 {
        Seq::empty()
    } else {
        (if is_file_name_token(ts[0]) {
            seq![ts[0]]
        } else {
            Seq::empty()
        }) + file_names_of(ts.drop_first())
    }
}

/// Mathematical model of a parsed filter.
pub struct FilterView {
    pub include_all: bool,
    pub extensions: Seq<Seq<char>>,
    pub file_names: Seq<Seq<char>>,
}

/// What parsing a well-formed expression yields: an empty expression or any
/// `*.*` token includes everything; otherwise the extension and file-name
/// sets collected in token order.
pub open spec fn spec_parse(s: Seq<char>) -> FilterView {
    if s.len() == 0 {
        FilterView { include_all: true, extensions: Seq::empty(), file_names: Seq::empty() }
    } else {
        let ts = split_tokens(s);
        if has_all_files_token(ts) {
            FilterView { include_all: true, extensions: Seq::empty(), file_names: Seq::empty() }
        } else {
            FilterView {
                include_all: false,
                extensions: extensions_of(ts),
                file_names: file_names_of(ts),
            }
        }
    }
}

/// A parsed filter expression: which directory entries are tracked.
#[derive(Debug, Clone)]
pub struct PathFilter {
    pub include_all: bool,
    pub extensions: Vec<String>,
    pub file_names: Vec<String>,
}

impl View for PathFilter {
    type V = FilterView;

    open spec fn view(&self) -> FilterView {
        FilterView {
            include_all: self.include_all,
            extensions: self.extensions.deep_view(),
            file_names: self.file_names.deep_view(),
        }
    }
}

/// Index of the last dot of `n`, or -1 when `n` has none.
pub open spec fn last_dot_index(n: Seq<char>) -> int
    decreases n.len(),
{
    if n.len() == 0 {
        -1
    } else if n[n.len() - 1] == '.' {
        n.len() - 1
    } else {
        last_dot_index(n.drop_last())
    }
}

/// The extension of a file name: what follows the last dot, provided that
/// dot is neither the first character (a dot-leading name has no extension)
/// nor absent.
pub open spec fn extension_of(n: Seq<char>) -> Option<Seq<char>> {
    let d = last_dot_index(n);
    if d >= 1 {
        Option::Some(n.skip(d + 1))
    } else {
        Option::None
    }
}

/// Whether a file with the given name is tracked: everything when the filter
/// includes all, else by extension membership or exact file-name membership.
pub open spec fn matches_spec(f: FilterView, name: Seq<char>) -> bool {
    f.include_all || (match extension_of(name) {
        Option::Some(e) => f.extensions.contains(e),
        Option::None => false,
    }) || f.file_names.contains(name)
}

fn sep_char(c: char) -> (r: bool)
    ensures
        r == is_sep_char(c),
{
    c == ';' || c == ','
}

fn alnum_char(c: char) -> (r: bool)
    ensures
        r == is_alnum_char(c),
{
    let u = c as u32;
    (97 <= u && u <= 122) || (65 <= u && u <= 90) || (48 <= u && u <= 57)
}

enum TokenKind {
    AllFiles,
    Extension,
    FileName,
    Invalid,
}

fn classify_token(t: &str) -> (k: TokenKind)
    ensures
        k is AllFiles <==> is_all_files_token(t@),
        k is Extension <==> (is_extension_token(t@) && !is_all_files_token(t@)),
        k is FileName <==> is_file_name_token(t@),
        k is Invalid <==> !valid_token(t@),
        k is AllFiles || k is FileName ==> !is_extension_token(t@),
{
    let n = t.unicode_len();
    if n < 3 {
        return TokenKind::Invalid;
    }
    let c0 = t.get_char(0);
    let c1 = t.get_char(1);
    if c0 == '*' {
        if c1 != '.' {
            assert(!is_file_name_token(t@)) by {
                assert(forall|i: int|
                    1 <= i < t@.len() - 1 && all_alnum(#[trigger] t@.take(i)) ==> is_alnum_char(
                        t@.take(i)[0],
                    ));
            }
            return TokenKind::Invalid;
        }
        if n == 3 && t.get_char(2) == '*' {
            assert(!is_extension_token(t@)) by {
                assert(t@.skip(2)[0] == t@[2]);
            }
            return TokenKind::AllFiles;
        }
        let mut i: usize = 2;
        while i < n
            invariant
                2 <= i <= n,
                n == t@.len(),
                t@[0] == '*',
                t@[1] == '.',
                !(n == 3 && t@[2] == '*'),
                forall|j: int| 2 <= j < i ==> is_alnum_char(#[trigger] t@[j]),
            decreases n - i,
        {
            if !alnum_char(t.get_char(i)) {
                assert(!is_extension_token(t@)) by {
                    assert(t@.skip(2)[i - 2] == t@[i as int]);
                }
                assert(!is_file_name_token(t@)) by {
                    assert(forall|m: int|
                        1 <= m < t@.len() - 1 && all_alnum(#[trigger] t@.take(m)) ==> is_alnum_char(
                            t@.take(m)[0],
                        ));
                }
                return TokenKind::Invalid;
            }
            i += 1;
        }
        assert(is_extension_token(t@)) by {
            assert(forall|j: int|
                0 <= j < t@.skip(2).len() ==> #[trigger] t@.skip(2)[j] == t@[j + 2]);
        }
        assert(!is_all_files_token(t@));
        assert(!is_file_name_token(t@)) by {
            assert(forall|m: int|
                1 <= m < t@.len() - 1 && all_alnum(#[trigger] t@.take(m)) ==> is_alnum_char(
                    t@.take(m)[0],
                ));
        }
        return TokenKind::Extension;
    }
    // name.ext: a single interior dot, alphanumeric elsewhere
    let mut i: usize = 0;
    let mut has_dot = false;
    let mut dot_pos: usize = 0;
    while i < n
        invariant
            0 <= i <= n,
            n == t@.len(),
            3 <= n,
            t@[0] != '*',
            has_dot ==> 1 <= dot_pos < i && t@[dot_pos as int] == '.' && dot_pos < n - 1,
            forall|j: int| 0 <= j < i && (!has_dot || j != dot_pos) ==> is_alnum_char(#[trigger] t@[j]),
        decreases n - i,
    {
        let c = t.get_char(i);
        if c == '.' {
            if has_dot || i == 0 || i == n - 1 {
                assert(!is_all_files_token(t@));
                assert(!is_extension_token(t@));
                assert(!is_file_name_token(t@)) by {
                    assert forall|m: int|
                        1 <= m < t@.len() - 1 && t@[m] == '.' implies !(all_alnum(t@.take(m))
                        && all_alnum(t@.skip(m + 1))) by {
                        if has_dot {
                            if m < dot_pos {
                                assert(t@.skip(m + 1)[dot_pos - m - 1] == t@[dot_pos as int]);
                            } else if m > dot_pos {
                                assert(t@.take(m)[dot_pos as int] == t@[dot_pos as int]);
                            } else {
                                assert(t@.skip(m + 1)[i - m - 1] == t@[i as int]);
                            }
                        } else {
                            // the only dot seen is at position i, which is 0 or n - 1
                            if m < i {
                                assert(t@.skip(m + 1)[i - m - 1] == t@[i as int]);
                            } else if m > i {
                                assert(t@.take(m)[i as int] == t@[i as int]);
                            }
                        }
                    }
                }
                return TokenKind::Invalid;
            }
            has_dot = true;
            dot_pos = i;
        } else if !alnum_char(c) {
            assert(!is_all_files_token(t@));
            assert(!is_extension_token(t@));
            assert(!is_file_name_token(t@)) by {
                assert forall|m: int|
                    1 <= m < t@.len() - 1 && t@[m] == '.' implies !(all_alnum(t@.take(m))
                    && all_alnum(t@.skip(m + 1))) by {
                    if m < i {
                        assert(t@.skip(m + 1)[i - m - 1] == t@[i as int]);
                    } else if m > i {
                        assert(t@.take(m)[i as int] == t@[i as int]);
                    }
                }
            }
            return TokenKind::Invalid;
        }
        i += 1;
    }
    if has_dot {
        assert(is_file_name_token(t@)) by {
            assert(all_alnum(t@.take(dot_pos as int))) by {
                assert(forall|j: int|
                    0 <= j < dot_pos ==> #[trigger] t@.take(dot_pos as int)[j] == t@[j]);
            }
            assert(all_alnum(t@.skip(dot_pos + 1))) by {
                assert(forall|j: int|
                    0 <= j < t@.len() - dot_pos - 1 ==> #[trigger] t@.skip(dot_pos + 1)[j] == t@[j
                        + dot_pos + 1]);
            }
        }
        assert(!is_all_files_token(t@));
        assert(!is_extension_token(t@));
        TokenKind::FileName
    } else {
        assert(!is_file_name_token(t@));
        assert(!is_all_files_token(t@));
        assert(!is_extension_token(t@));
        TokenKind::Invalid
    }
}

proof fn lemma_first_sep_found(s: Seq<char>, i: int, k: int)
    requires
        0 <= i <= k <= s.len(),
        forall|j: int| i <= j < k ==> !is_sep_char(#[trigger] s[j]),
        k < s.len() ==> is_sep_char(s[k]),
    ensures
        first_sep_from(s, i) == if k < s.len() {
            k
        } else {
            s.len() as int
        },
    decreases k - i,
{
    if i < k {
        lemma_first_sep_found(s, i + 1, k);
    }
}

/// Splitting at the first separator boundary `k`.
proof fn lemma_split_step(s: Seq<char>, k: int)
    requires
        0 <= k < s.len(),
        forall|j: int| 0 <= j < k ==> !is_sep_char(#[trigger] s[j]),
        is_sep_char(s[k]),
    ensures
        split_tokens(s) == seq![s.take(k)] + split_tokens(s.skip(k + 1)),
{
    lemma_first_sep_found(s, 0, k);
}

/// A separator-free string is a single token.
proof fn lemma_split_whole(s: Seq<char>)
    requires
        forall|j: int| 0 <= j < s.len() ==> !is_sep_char(#[trigger] s[j]),
    ensures
        split_tokens(s) == seq![s],
{
    lemma_first_sep_found(s, 0, s.len() as int);
}

proof fn lemma_extensions_of_push(ts: Seq<Seq<char>>, t: Seq<char>)
    ensures
        extensions_of(ts.push(t)) == extensions_of(ts) + (if is_extension_token(t) {
            seq![t.skip(2)]
        } else {
            Seq::<Seq<char>>::empty()
        }),
    decreases ts.len(),
{
    let tail = if is_extension_token(t) {
        seq![t.skip(2)]
    } else {
        Seq::<Seq<char>>::empty()
    };
    if ts.len() == 0 {
        assert(ts =~= Seq::<Seq<char>>::empty());
        assert(ts.push(t).drop_first() =~= ts);
        assert(extensions_of(ts.push(t)) =~= extensions_of(ts) + tail);
    } else {
        lemma_extensions_of_push(ts.drop_first(), t);
        assert(ts.push(t).drop_first() =~= ts.drop_first().push(t));
        assert(extensions_of(ts.push(t)) =~= extensions_of(ts) + tail);
    }
}

proof fn lemma_file_names_of_push(ts: Seq<Seq<char>>, t: Seq<char>)
    ensures
        file_names_of(ts.push(t)) == file_names_of(ts) + (if is_file_name_token(t) {
            seq![t]
        } else {
            Seq::<Seq<char>>::empty()
        }),
    decreases ts.len(),
{
    let tail = if is_file_name_token(t) {
        seq![t]
    } else {
        Seq::<Seq<char>>::empty()
    };
    if ts.len() == 0 {
        assert(ts =~= Seq::<Seq<char>>::empty());
        assert(ts.push(t).drop_first() =~= ts);
        assert(file_names_of(ts.push(t)) =~= file_names_of(ts) + tail);
    } else {
        lemma_file_names_of_push(ts.drop_first(), t);
        assert(ts.push(t).drop_first() =~= ts.drop_first().push(t));
        assert(file_names_of(ts.push(t)) =~= file_names_of(ts) + tail);
    }
}

impl PathFilter {
    /// A filter that tracks every file.
    pub fn include_all() -> (r: PathFilter)
        ensures
            r@ == (FilterView {
                include_all: true,
                extensions: Seq::<Seq<char>>::empty(),
                file_names: Seq::<Seq<char>>::empty(),
            }),
    {
        let r = PathFilter { include_all: true, extensions: Vec::new(), file_names: Vec::new() };
        proof {
            assert(r.extensions.deep_view() =~= Seq::<Seq<char>>::empty());
            assert(r.file_names.deep_view() =~= Seq::<Seq<char>>::empty());
        }
        r
    }

    /// Parses a filter expression. Fails with `ConfigError::BadFilter` if and
    /// only if some token of the expression does not match the grammar.
    pub fn parse(expr: &str) -> (r: Result<PathFilter, ConfigError>)
        ensures
            match r {
                Result::Ok(f) => filter_expr_valid(expr@) && f@ == spec_parse(expr@),
                Result::Err(e) => !filter_expr_valid(expr@) && e == ConfigError::BadFilter,
            },
    {
        let n = expr.unicode_len();
        if n == 0 {
            return Result::Ok(PathFilter::include_all());
        }
        let mut extensions: Vec<String> = Vec::new();
        let mut file_names: Vec<String> = Vec::new();
        let mut include_all = false;
        let mut start: usize = 0;
        let mut i: usize = 0;
        let ghost mut done: Seq<Seq<char>> = Seq::empty();
        proof {
            assert(expr@.skip(0) =~= expr@);
            assert(split_tokens(expr@) =~= done + split_tokens(expr@.skip(0)));
            assert(extensions.deep_view() =~= extensions_of(done));
            assert(file_names.deep_view() =~= file_names_of(done));
        }
        while i < n
            invariant
                0 <= start <= i <= n,
                n == expr@.len(),
                n > 0,
                forall|j: int| start <= j < i ==> !is_sep_char(#[trigger] expr@[j]),
                split_tokens(expr@) == done + split_tokens(expr@.skip(start as int)),
                all_tokens_valid(done),
                include_all == has_all_files_token(done),
                extensions.deep_view() == extensions_of(done),
                file_names.deep_view() == file_names_of(done),
            decreases n - i,
        {
            let c = expr.get_char(i);
            if sep_char(c) {
                let tok = expr.substring_char(start, i);
                proof {
                    let suf = expr@.skip(start as int);
                    assert(forall|j: int|
                        0 <= j < i - start ==> suf[j] == #[trigger] expr@[j + start]);
                    lemma_split_step(suf, i - start);
                    assert(suf.take(i - start) =~= tok@);
                    assert(suf.skip(i - start + 1) =~= expr@.skip(i + 1));
                    assert(split_tokens(expr@) =~= done.push(tok@) + split_tokens(
                        expr@.skip(i + 1),
                    ));
                }
                match Self::take_token(tok, &mut include_all, &mut extensions, &mut file_names) {
                    Result::Ok(()) => {
                        proof {
                            let prev = done;
                            done = done.push(tok@);
                            assert(all_tokens_valid(done)) by {
                                assert(forall|k: int|
                                    0 <= k < prev.len() ==> done[k] == #[trigger] prev[k]);
                            }
                            assert(has_all_files_token(done) == (has_all_files_token(prev)
                                || is_all_files_token(tok@))) by {
                                if has_all_files_token(prev) {
                                    let k = choose|k: int|
                                        0 <= k < prev.len() && is_all_files_token(#[trigger] prev[k]);
                                    assert(is_all_files_token(done[k]));
                                }
                                if is_all_files_token(tok@) {
                                    assert(is_all_files_token(done[done.len() - 1]));
                                }
                                if has_all_files_token(done) {
                                    let k = choose|k: int|
                                        0 <= k < done.len() && is_all_files_token(#[trigger] done[k]);
                                    if k < prev.len() {
                                        assert(is_all_files_token(prev[k]));
                                    }
                                }
                            }
                            lemma_extensions_of_push(prev, tok@);
                            lemma_file_names_of_push(prev, tok@);
                        }
                    },
                    Result::Err(e) => {
                        proof {
                            assert(!valid_token(split_tokens(expr@)[done.len() as int]));
                        }
                        return Result::Err(e);
                    },
                }
                start = i + 1;
            }
            i += 1;
        }
        let tok = expr.substring_char(start, n);
        proof {
            let suf = expr@.skip(start as int);
            assert(forall|j: int| 0 <= j < n - start ==> suf[j] == #[trigger] expr@[j + start]);
            lemma_split_whole(suf);
            assert(suf =~= tok@);
            assert(split_tokens(expr@) =~= done.push(tok@));
        }
        match Self::take_token(tok, &mut include_all, &mut extensions, &mut file_names) {
            Result::Ok(()) => {},
            Result::Err(e) => {
                proof {
                    assert(!valid_token(split_tokens(expr@)[done.len() as int]));
                }
                return Result::Err(e);
            },
        }
        proof {
            let prev = done;
            done = done.push(tok@);
            assert(all_tokens_valid(done)) by {
                assert(forall|k: int| 0 <= k < prev.len() ==> done[k] == #[trigger] prev[k]);
            }
            assert(has_all_files_token(done) == (has_all_files_token(prev) || is_all_files_token(
                tok@,
            ))) by {
                if has_all_files_token(prev) {
                    let k = choose|k: int|
                        0 <= k < prev.len() && is_all_files_token(#[trigger] prev[k]);
                    assert(is_all_files_token(done[k]));
                }
                if is_all_files_token(tok@) {
                    assert(is_all_files_token(done[done.len() - 1]));
                }
                if has_all_files_token(done) {
                    let k = choose|k: int|
                        0 <= k < done.len() && is_all_files_token(#[trigger] done[k]);
                    if k < prev.len() {
                        assert(is_all_files_token(prev[k]));
                    }
                }
            }
            lemma_extensions_of_push(prev, tok@);
            lemma_file_names_of_push(prev, tok@);
            assert(done == split_tokens(expr@));
        }
        if include_all {
            let r = PathFilter::include_all();
            assert(r@ == spec_parse(expr@));
            Result::Ok(r)
        } else {
            let r = PathFilter { include_all: false, extensions, file_names };
            assert(r@ == spec_parse(expr@));
            Result::Ok(r)
        }
    }

    /// Classifies one token and folds it into the partial parse state.
    fn take_token(
        tok: &str,
        include_all: &mut bool,
        extensions: &mut Vec<String>,
        file_names: &mut Vec<String>,
    ) -> (r: Result<(), ConfigError>)
        ensures
            match r {
                Result::Ok(()) => {
                    &&& valid_token(tok@)
                    &&& *final(include_all) == (*old(include_all) || is_all_files_token(tok@))
                    &&& final(extensions).deep_view() == old(extensions).deep_view() + (
                    if is_extension_token(tok@) {
                        seq![tok@.skip(2)]
                    } else {
                        Seq::<Seq<char>>::empty()
                    })
                    &&& final(file_names).deep_view() == old(file_names).deep_view() + (
                    if is_file_name_token(tok@) {
                        seq![tok@]
                    } else {
                        Seq::<Seq<char>>::empty()
                    })
                },
                Result::Err(e) => {
                    &&& !valid_token(tok@)
                    &&& e == ConfigError::BadFilter
                    &&& *final(include_all) == *old(include_all)
                    &&& *final(extensions) == *old(extensions)
                    &&& *final(file_names) == *old(file_names)
                },
            },
    {
        match classify_token(tok) {
            TokenKind::AllFiles => {
                *include_all = true;
                proof {
                    assert(final(extensions).deep_view() =~= old(extensions).deep_view()
                        + Seq::<Seq<char>>::empty());
                    assert(final(file_names).deep_view() =~= old(file_names).deep_view()
                        + Seq::<Seq<char>>::empty());
                }
                Result::Ok(())
            },
            TokenKind::Extension => {
                let len = tok.unicode_len();
                let ext = tok.substring_char(2, len);
                extensions.push(String::from_str(ext));
                proof {
                    assert(ext@ =~= tok@.skip(2));
                    assert(final(extensions).deep_view() =~= old(extensions).deep_view() + seq![
                        tok@.skip(2),
                    ]);
                    assert(final(file_names).deep_view() =~= old(file_names).deep_view()
                        + Seq::<Seq<char>>::empty());
                }
                Result::Ok(())
            },
            TokenKind::FileName => {
                file_names.push(String::from_str(tok));
                proof {
                    assert(final(extensions).deep_view() =~= old(extensions).deep_view()
                        + Seq::<Seq<char>>::empty());
                    assert(final(file_names).deep_view() =~= old(file_names).deep_view() + seq![
                        tok@,
                    ]);
                }
                Result::Ok(())
            },
            TokenKind::Invalid => Result::Err(ConfigError::BadFilter),
        }
    }

    /// Whether a file with the given (final-component) name is tracked.
    pub fn matches_file(&self, name: &str) -> (r: bool)
        ensures
            r == matches_spec(self@, name@),
    {
        if self.include_all {
            return true;
        }
        let n = name.unicode_len();
        proof {
            assert(name@.take(n as int) =~= name@);
        }
        // locate the last dot of the name
        let mut j: usize = n;
        let mut has_dot = false;
        let mut dot_pos: usize = 0;
        while j > 0 && !has_dot
            invariant
                0 <= j <= n,
                n == name@.len(),
                !has_dot ==> last_dot_index(name@) == last_dot_index(name@.take(j as int)),
                has_dot ==> j == dot_pos && dot_pos < n && last_dot_index(name@)
                    == dot_pos as int,
            decreases j + (if has_dot { 0int } else { 1int }),
        {
            if name.get_char(j - 1) == '.' {
                has_dot = true;
                dot_pos = j - 1;
                proof {
                    let p = name@.take(j as int);
                    assert(p[p.len() - 1] == '.');
                    assert(last_dot_index(p) == j - 1);
                }
                j -= 1;
            } else {
                proof {
                    let p = name@.take(j as int);
                    assert(p[p.len() - 1] != '.');
                    assert(p.drop_last() =~= name@.take(j - 1));
                }
                j -= 1;
            }
        }
        proof {
            if !has_dot {
                assert(name@.take(0) =~= Seq::<char>::empty());
                assert(last_dot_index(name@) == -1);
            }
        }
        if has_dot && dot_pos >= 1 {
            let ext = name.substring_char(dot_pos + 1, n);
            proof {
                assert(ext@ =~= name@.skip(dot_pos + 1));
                assert(extension_of(name@) == Option::Some(name@.skip(dot_pos + 1)));
            }
            let ext_string = String::from_str(ext);
            let mut k: usize = 0;
            while k < self.extensions.len()
                invariant
                    0 <= k <= self.extensions.len(),
                    ext_string@ == ext@,
                    extension_of(name@) == Option::Some(ext@),
                    forall|m: int| 0 <= m < k ==> self.extensions.deep_view()[m] != ext@,
                decreases self.extensions.len() - k,
            {
                let same = self.extensions[k].eq(&ext_string);
                proof {
                    assert(self.extensions.deep_view()[k as int] == self.extensions@[k as int]@);
                }
                if same {
                    proof {
                        assert(self@.extensions[k as int] == ext@);
                        assert(self@.extensions.contains(ext@));
                    }
                    return true;
                }
                k += 1;
            }
            proof {
                assert(!self@.extensions.contains(ext@)) by {
                    if self@.extensions.contains(ext@) {
                        let m = choose|m: int|
                            0 <= m < self@.extensions.len() && self@.extensions[m] == ext@;
                        assert(self.extensions.deep_view()[m] != ext@);
                    }
                }
            }
        } else {
            proof {
                assert(extension_of(name@) is None);
            }
        }
        let name_string = String::from_str(name);
        let mut k: usize = 0;
        while k < self.file_names.len()
            invariant
                0 <= k <= self.file_names.len(),
                name_string@ == name@,
                forall|m: int| 0 <= m < k ==> self.file_names.deep_view()[m] != name@,
            decreases self.file_names.len() - k,
        {
            let same = self.file_names[k].eq(&name_string);
            proof {
                assert(self.file_names.deep_view()[k as int] == self.file_names@[k as int]@);
            }
            if same {
                proof {
                    assert(self@.file_names[k as int] == name@);
                    assert(self@.file_names.contains(name@));
                }
                return true;
            }
            k += 1;
        }
        proof {
            assert(!self@.file_names.contains(name@)) by {
                if self@.file_names.contains(name@) {
                    let m = choose|m: int|
                        0 <= m < self@.file_names.len() && self@.file_names[m] == name@;
                    assert(self.file_names.deep_view()[m] != name@);
                }
            }
        }
        false
    }
}

} // verus!
