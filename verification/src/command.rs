//! The commands of the interactive shell and their grammar.
use vstd::prelude::*;
use crate::text::{chars_of, push_char};

verus! {

/// A command of the interactive shell.
#[derive(Debug)]
pub enum Command {
    Fill { begin: u64, end: u64 },
    Del { key: String },
    Get { key: String },
    Scan { begin: Option<String>, end: Option<String> },
    TxnBegin,
    TxnGet { key: String },
    TxnPut { key: String, value: String },
    TxnDelete { key: String },
    TxnCommit,
    Dump,
    Flush,
    FullCompaction,
    Quit,
    Close,
}

/// A command with its strings as character sequences.
pub enum CommandView {
    Fill { begin: u64, end: u64 },
    Del { key: Seq<char> },
    Get { key: Seq<char> },
    Scan { begin: Option<Seq<char>>, end: Option<Seq<char>> },
    TxnBegin,
    TxnGet { key: Seq<char> },
    TxnPut { key: Seq<char>, value: Seq<char> },
    TxnDelete { key: Seq<char> },
    TxnCommit,
    Dump,
    Flush,
    FullCompaction,
    Quit,
    Close,
}

pub open spec fn opt_string_view(s: Option<String>) -> Option<Seq<char>> {
    match s {
        Some(x) => Some(x@),
        None => None,
    }
}

impl View for Command {
    type V = CommandView;

    open spec fn view(&self) -> CommandView {
        match self {
            Command::Fill { begin, end } => CommandView::Fill { begin: *begin, end: *end },
            Command::Del { key } => CommandView::Del { key: key@ },
            Command::Get { key } => CommandView::Get { key: key@ },
            Command::Scan { begin, end } => CommandView::Scan {
                begin: opt_string_view(*begin),
                end: opt_string_view(*end),
            },
            Command::TxnBegin => CommandView::TxnBegin,
            Command::TxnGet { key } => CommandView::TxnGet { key: key@ },
            Command::TxnPut { key, value } => CommandView::TxnPut { key: key@, value: value@ },
            Command::TxnDelete { key } => CommandView::TxnDelete { key: key@ },
            Command::TxnCommit => CommandView::TxnCommit,
            Command::Dump => CommandView::Dump,
            Command::Flush => CommandView::Flush,
            Command::FullCompaction => CommandView::FullCompaction,
            Command::Quit => CommandView::Quit,
            Command::Close => CommandView::Close,
        }
    }
}

/// A line that is no command.
#[derive(Debug, Clone, Copy, PartialEq, Eq, Structural)]
pub enum CommandParseError {
    Unrecognized,
}

/// Unicode white space, the characters `char::is_whitespace` accepts.
pub open spec fn spec_is_whitespace(c: char) -> bool {
    let u = c as u32;
    (9 <= u && u <= 13) || u == 32 || u == 0x85 || u == 0xa0 || u == 0x1680 || (0x2000 <= u && u
        <= 0x200a) || u == 0x2028 || u == 0x2029 || u == 0x202f || u == 0x205f || u == 0x3000
}

/// A blank between words: a space or a tab.
pub open spec fn is_blank(c: char) -> bool {
    c == ' ' || c == '\t'
}

pub open spec fn is_digit(c: char) -> bool {
    '0' <= c && c <= '9'
}

/// Whether input character `c` matches lower-case tag character `t`,
/// ignoring case.
pub open spec fn char_eq_no_case(c: char, t: char) -> bool {
    c == t || ('a' <= t && t <= 'z' && c as u32 + 32 == t as u32)
}

/// Whether `tag` (lower case) stands at the start of `s`, ignoring case.
pub open spec fn tag_at(s: Seq<char>, i: int, tag: Seq<char>) -> bool {
    &&& 0 <= i
    &&& i + tag.len() <= s.len()
    &&& forall|j: int| #![trigger tag[j]] 0 <= j < tag.len() ==> char_eq_no_case(s[i + j], tag[j])
}

/// The number of characters satisfying `p` from position `i` on.
pub open spec fn run_len(s: Seq<char>, i: int, p: spec_fn(char) -> bool) -> nat
    decreases s.len() - i,
{
    if i < 0 || i >= s.len() || !p(s[i]) {
        0
    } else {
        1 + run_len(s, i + 1, p)
    }
}

/// The number the `n` digits from position `i` on spell.
pub open spec fn digits_value(s: Seq<char>, i: int, n: nat) -> nat
    decreases n,
{
    if n == 0 {
        0
    } else {
        digits_value(s, i, (n - 1) as nat) * 10 + (s[i + n - 1] as nat - '0' as nat) as nat
    }
}

pub open spec fn blank_pred() -> spec_fn(char) -> bool {
    |c: char| is_blank(c)
}

pub open spec fn digit_pred() -> spec_fn(char) -> bool {
    |c: char| is_digit(c)
}

pub open spec fn word_pred() -> spec_fn(char) -> bool {
    |c: char| !spec_is_whitespace(c)
}

/// One or more blanks from `i`: where they end.
pub open spec fn p_blanks(s: Seq<char>, i: int) -> Option<int> {
    let n = run_len(s, i, blank_pred());
    if n >= 1 {
        Some(i + n)
    } else {
        None
    }
}

/// One or more digits from `i` that fit in a `u64`: their value and where
/// they end.
pub open spec fn p_uint(s: Seq<char>, i: int) -> Option<(u64, int)> {
    let n = run_len(s, i, digit_pred());
    if n >= 1 && digits_value(s, i, n) <= u64::MAX {
        Some((digits_value(s, i, n) as u64, i + n))
    } else {
        None
    }
}

/// One or more characters other than white space from `i`: the word and
/// where it ends.
pub open spec fn p_word(s: Seq<char>, i: int) -> Option<(Seq<char>, int)> {
    let n = run_len(s, i, word_pred());
    if n >= 1 {
        Some((s.subrange(i, i + n), i + n))
    } else {
        None
    }
}

/// Blanks then a word, from `i`.
pub open spec fn p_blank_word(s: Seq<char>, i: int) -> Option<(Seq<char>, int)> {
    match p_blanks(s, i) {
        Some(j) => p_word(s, j),
        None => None,
    }
}

/// Blanks then a number, from `i`.
pub open spec fn p_blank_uint(s: Seq<char>, i: int) -> Option<(u64, int)> {
    match p_blanks(s, i) {
        Some(j) => p_uint(s, j),
        None => None,
    }
}

/// `tag word`.
pub open spec fn one_arg(s: Seq<char>, tag: Seq<char>) -> Option<Seq<char>> {
    if tag_at(s, 0, tag) {
        match p_blank_word(s, tag.len() as int) {
            Some((w, _)) => Some(w),
            None => None,
        }
    } else {
        None
    }
}

/// Two blank-separated words from `i`.
pub open spec fn p_two_words(s: Seq<char>, i: int) -> Option<(Seq<char>, Seq<char>)> {
    match p_blank_word(s, i) {
        Some((a, j)) => match p_blank_word(s, j) {
            Some((b, _)) => Some((a, b)),
            None => None,
        },
        None => None,
    }
}

/// `tag word word`.
pub open spec fn two_args(s: Seq<char>, tag: Seq<char>) -> Option<(Seq<char>, Seq<char>)> {
    if tag_at(s, 0, tag) {
        p_two_words(s, tag.len() as int)
    } else {
        None
    }
}

/// `tag number number`.
pub open spec fn two_uints(s: Seq<char>, tag: Seq<char>) -> Option<(u64, u64)> {
    if tag_at(s, 0, tag) {
        match p_blank_uint(s, tag.len() as int) {
            Some((a, j)) => match p_blank_uint(s, j) {
                Some((b, _)) => Some((a, b)),
                None => None,
            },
            None => None,
        }
    } else {
        None
    }
}

/// The command a line starts with: the first form, in a fixed order, that
/// the line starts with; command names in any case; arguments separated by
/// spaces or tabs; what follows a command is ignored.
pub open spec fn spec_parse(s: Seq<char>) -> Option<CommandView> {
    if let Some((begin, end)) = two_uints(s, "fill"@) {
        Some(CommandView::Fill { begin, end })
    } else if let Some(key) = one_arg(s, "del"@) {
        Some(CommandView::Del { key })
    } else if let Some(key) = one_arg(s, "get"@) {
        Some(CommandView::Get { key })
    } else if tag_at(s, 0, "scan"@) {
        match p_two_words(s, 4) {
            Some((b, e)) => Some(CommandView::Scan { begin: Some(b), end: Some(e) }),
            None => Some(CommandView::Scan { begin: None, end: None }),
        }
    } else if tag_at(s, 0, "txn_begin"@) {
        Some(CommandView::TxnBegin)
    } else if let Some(key) = one_arg(s, "txn_get"@) {
        Some(CommandView::TxnGet { key })
    } else if let Some((key, value)) = two_args(s, "txn_put"@) {
        Some(CommandView::TxnPut { key, value })
    } else if let Some(key) = one_arg(s, "txn_delete"@) {
        Some(CommandView::TxnDelete { key })
    } else if tag_at(s, 0, "txn_commit"@) {
        Some(CommandView::TxnCommit)
    } else if tag_at(s, 0, "dump"@) {
        Some(CommandView::Dump)
    } else if tag_at(s, 0, "flush"@) {
        Some(CommandView::Flush)
    } else if tag_at(s, 0, "full_compaction"@) {
        Some(CommandView::FullCompaction)
    } else if tag_at(s, 0, "quit"@) {
        Some(CommandView::Quit)
    } else if tag_at(s, 0, "close"@) {
        Some(CommandView::Close)
    } else {
        None
    }
}

/// Whether `c` is white space.
pub fn is_whitespace(c: char) -> (r: bool)
    ensures
        r == spec_is_whitespace(c),
{
    let u = c as u32;
    (9 <= u && u <= 13) || u == 32 || u == 0x85 || u == 0xa0 || u == 0x1680 || (0x2000 <= u && u
        <= 0x200a) || u == 0x2028 || u == 0x2029 || u == 0x202f || u == 0x205f || u == 0x3000
}

fn eq_no_case(c: char, t: char) -> (r: bool)
    ensures
        r == char_eq_no_case(c, t),
{
    c == t || ('a' <= t && t <= 'z' && (c as u32) + 32 == (t as u32))
}

fn match_tag(s: &Vec<char>, i: usize, tag: &str) -> (r: bool)
    ensures
        r == tag_at(s@, i as int, tag@),
{
    let t = chars_of(tag);
    if t.len() > s.len() || i > s.len() - t.len() {
        return false;
    }
    let mut j: usize = 0;
    while j < t.len()
        invariant
            0 <= j <= t@.len(),
            t@ == tag@,
            i + t@.len() <= s@.len(),
            s@.len() <= usize::MAX,
            forall|k: int| #![trigger tag@[k]] 0 <= k < j ==> char_eq_no_case(s@[i + k], tag@[k]),
        decreases t@.len() - j,
    {
        if !eq_no_case(s[i + j], t[j]) {
            assert(tag@[j as int] == t@[j as int]);
            return false;
        }
        j = j + 1;
    }
    true
}

proof fn lemma_run_len_step(s: Seq<char>, i: int, p: spec_fn(char) -> bool)
    requires
        0 <= i < s.len(),
        p(s[i]),
    ensures
        run_len(s, i, p) == 1 + run_len(s, i + 1, p),
{
}

proof fn lemma_run_len_bound(s: Seq<char>, i: int, p: spec_fn(char) -> bool)
    requires
        0 <= i <= s.len(),
    ensures
        i + run_len(s, i, p) <= s.len(),
    decreases s.len() - i,
{
    if i < s.len() && p(s[i]) {
        lemma_run_len_bound(s, i + 1, p);
    }
}

fn count_blanks(s: &Vec<char>, i: usize) -> (r: usize)
    requires
        i <= s@.len(),
    ensures
        r == run_len(s@, i as int, blank_pred()),
        i + r <= s@.len(),
{
    let ghost p = blank_pred();
    let len = s.len();
    let mut j: usize = i;
    while j < s.len() && (s[j] == ' ' || s[j] == '\t')
        invariant
            i <= j <= s@.len(),
            run_len(s@, i as int, p) == (j - i) + run_len(s@, j as int, p),
            p == blank_pred(),
            len == s@.len(),
        decreases s@.len() - j,
    {
        proof {
            assert(p(s@[j as int]));
            lemma_run_len_step(s@, j as int, p);
        }
        j = j + 1;
    }
    proof {
        lemma_run_len_bound(s@, i as int, p);
    }
    j - i
}

fn count_digits(s: &Vec<char>, i: usize) -> (r: usize)
    requires
        i <= s@.len(),
    ensures
        r == run_len(s@, i as int, digit_pred()),
        i + r <= s@.len(),
{
    let ghost p = digit_pred();
    let len = s.len();
    let mut j: usize = i;
    while j < s.len() && ('0' <= s[j] && s[j] <= '9')
        invariant
            i <= j <= s@.len(),
            run_len(s@, i as int, p) == (j - i) + run_len(s@, j as int, p),
            p == digit_pred(),
            len == s@.len(),
        decreases s@.len() - j,
    {
        proof {
            assert(p(s@[j as int]));
            lemma_run_len_step(s@, j as int, p);
        }
        j = j + 1;
    }
    proof {
        lemma_run_len_bound(s@, i as int, p);
    }
    j - i
}

fn count_word(s: &Vec<char>, i: usize) -> (r: usize)
    requires
        i <= s@.len(),
    ensures
        r == run_len(s@, i as int, word_pred()),
        i + r <= s@.len(),
{
    let ghost p = word_pred();
    let len = s.len();
    let mut j: usize = i;
    while j < s.len() && !is_whitespace(s[j])
        invariant
            i <= j <= s@.len(),
            run_len(s@, i as int, p) == (j - i) + run_len(s@, j as int, p),
            p == word_pred(),
            len == s@.len(),
        decreases s@.len() - j,
    {
        proof {
            assert(p(s@[j as int]));
            lemma_run_len_step(s@, j as int, p);
        }
        j = j + 1;
    }
    proof {
        lemma_run_len_bound(s@, i as int, p);
    }
    j - i
}

proof fn lemma_digits_value_grows(s: Seq<char>, i: int, n: nat, m: nat)
    requires
        n <= m,
        forall|k: int| i <= k < i + m ==> is_digit(#[trigger] s[k]),
    ensures
        digits_value(s, i, n) <= digits_value(s, i, m),
    decreases m - n,
{
    if n < m {
        lemma_digits_value_grows(s, i, n, (m - 1) as nat);
    }
}

proof fn lemma_run_is_digits(s: Seq<char>, i: int, n: nat, k: int)
    requires
        n == run_len(s, i, digit_pred()),
        i <= k < i + n,
    ensures
        is_digit(s[k]),
    decreases k - i,
{
    if k > i {
        lemma_run_is_digits(s, i + 1, (n - 1) as nat, k);
    }
}

/// The value of `n` digits from `i`, if it fits in a `u64`.
fn digits_to_u64(s: &Vec<char>, i: usize, n: usize) -> (r: Option<u64>)
    requires
        i + n <= s@.len(),
        s@.len() <= usize::MAX,
        forall|k: int| i <= k < i + n ==> is_digit(#[trigger] s@[k]),
    ensures
        match r {
            Some(v) => v == digits_value(s@, i as int, n as nat),
            None => digits_value(s@, i as int, n as nat) > u64::MAX,
        },
{
    let mut v: u64 = 0;
    let mut j: usize = 0;
    while j < n
        invariant
            0 <= j <= n,
            i + n <= s@.len(),
            s@.len() <= usize::MAX,
            forall|k: int| i <= k < i + n ==> is_digit(#[trigger] s@[k]),
            v == digits_value(s@, i as int, j as nat),
        decreases n - j,
    {
        let c = s[i + j];
        assert(is_digit(s@[i + j]));
        let d = (c as u32 - '0' as u32) as u64;
        match v.checked_mul(10) {
            Some(m) => match m.checked_add(d) {
                Some(next) => {
                    v = next;
                },
                None => {
                    proof {
                        lemma_digits_value_grows(s@, i as int, (j + 1) as nat, n as nat);
                    }
                    return None;
                },
            },
            None => {
                proof {
                    lemma_digits_value_grows(s@, i as int, (j + 1) as nat, n as nat);
                }
                return None;
            },
        }
        j = j + 1;
    }
    Some(v)
}

/// The string of the `n` characters from `i`.
fn string_of(s: &Vec<char>, i: usize, n: usize) -> (r: String)
    requires
        i + n <= s@.len(),
        s@.len() <= usize::MAX,
    ensures
        r@ == s@.subrange(i as int, i + n),
{
    let mut out = String::new();
    let mut j: usize = 0;
    while j < n
        invariant
            0 <= j <= n,
            i + n <= s@.len(),
            s@.len() <= usize::MAX,
            out@ == s@.subrange(i as int, i + j),
        decreases n - j,
    {
        push_char(&mut out, s[i + j]);
        assert(out@ =~= s@.subrange(i as int, i + j + 1));
        j = j + 1;
    }
    out
}

fn blanks_at(s: &Vec<char>, i: usize) -> (r: Option<usize>)
    requires
        i <= s@.len(),
    ensures
        match r {
            Some(j) => p_blanks(s@, i as int) == Some(j as int) && j <= s@.len(),
            None => p_blanks(s@, i as int) is None,
        },
{
    let len = s.len();
    let n = count_blanks(s, i);
    if n >= 1 {
        Some(i + n)
    } else {
        None
    }
}

fn blank_word_at(s: &Vec<char>, i: usize) -> (r: Option<(String, usize)>)
    requires
        i <= s@.len(),
    ensures
        match r {
            Some((w, j)) => p_blank_word(s@, i as int) == Some((w@, j as int)) && j <= s@.len(),
            None => p_blank_word(s@, i as int) is None,
        },
{
    let len = s.len();
    match blanks_at(s, i) {
        Some(j) => {
            let n = count_word(s, j);
            if n >= 1 {
                Some((string_of(s, j, n), j + n))
            } else {
                None
            }
        },
        None => None,
    }
}

fn blank_uint_at(s: &Vec<char>, i: usize) -> (r: Option<(u64, usize)>)
    requires
        i <= s@.len(),
    ensures
        match r {
            Some((v, j)) => p_blank_uint(s@, i as int) == Some((v, j as int)) && j <= s@.len(),
            None => p_blank_uint(s@, i as int) is None,
        },
{
    let len = s.len();
    match blanks_at(s, i) {
        Some(j) => {
            let n = count_digits(s, j);
            if n >= 1 {
                proof {
                    assert forall|k: int| j <= k < j + n implies is_digit(#[trigger] s@[k]) by {
                        lemma_run_is_digits(s@, j as int, n as nat, k);
                    }
                }
                match digits_to_u64(s, j, n) {
                    Some(v) => Some((v, j + n)),
                    None => None,
                }
            } else {
                None
            }
        },
        None => None,
    }
}

fn two_words_at(s: &Vec<char>, i: usize) -> (r: Option<(String, String)>)
    requires
        i <= s@.len(),
    ensures
        match r {
            Some((a, b)) => p_two_words(s@, i as int) == Some((a@, b@)),
            None => p_two_words(s@, i as int) is None,
        },
{
    match blank_word_at(s, i) {
        Some((a, j)) => match blank_word_at(s, j) {
            Some((b, _)) => Some((a, b)),
            None => None,
        },
        None => None,
    }
}

fn exec_one_arg(s: &Vec<char>, tag: &str) -> (r: Option<String>)
    ensures
        match r {
            Some(w) => one_arg(s@, tag@) == Some(w@),
            None => one_arg(s@, tag@) is None,
        },
{
    if match_tag(s, 0, tag) {
        let n = chars_of(tag).len();
        match blank_word_at(s, n) {
            Some((w, _)) => Some(w),
            None => None,
        }
    } else {
        None
    }
}

fn exec_two_args(s: &Vec<char>, tag: &str) -> (r: Option<(String, String)>)
    ensures
        match r {
            Some((a, b)) => two_args(s@, tag@) == Some((a@, b@)),
            None => two_args(s@, tag@) is None,
        },
{
    if match_tag(s, 0, tag) {
        let n = chars_of(tag).len();
        two_words_at(s, n)
    } else {
        None
    }
}

fn exec_two_uints(s: &Vec<char>, tag: &str) -> (r: Option<(u64, u64)>)
    ensures
        match r {
            Some((a, b)) => two_uints(s@, tag@) == Some((a, b)),
            None => two_uints(s@, tag@) is None,
        },
{
    if match_tag(s, 0, tag) {
        let n = chars_of(tag).len();
        match blank_uint_at(s, n) {
            Some((a, j)) => match blank_uint_at(s, j) {
                Some((b, _)) => Some((a, b)),
                None => None,
            },
            None => None,
        }
    } else {
        None
    }
}

impl Command {
    /// Reads the command a line starts with.
    pub fn parse(input: &str) -> (r: Result<Command, CommandParseError>)
        ensures
            match r {
                Ok(c) => spec_parse(input@) == Some(c@),
                Err(_) => spec_parse(input@) is None,
            },
    {
        let s = chars_of(input);
        if let Some((begin, end)) = exec_two_uints(&s, "fill") {
            return Ok(Command::Fill { begin, end });
        }
        if let Some(key) = exec_one_arg(&s, "del") {
            return Ok(Command::Del { key });
        }
        if let Some(key) = exec_one_arg(&s, "get") {
            return Ok(Command::Get { key });
        }
        if match_tag(&s, 0, "scan") {
            proof {
                reveal_strlit("scan");
            }
            return match two_words_at(&s, 4) {
                Some((b, e)) => Ok(Command::Scan { begin: Some(b), end: Some(e) }),
                None => Ok(Command::Scan { begin: None, end: None }),
            };
        }
        if match_tag(&s, 0, "txn_begin") {
            return Ok(Command::TxnBegin);
        }
        if let Some(key) = exec_one_arg(&s, "txn_get") {
            return Ok(Command::TxnGet { key });
        }
        if let Some((key, value)) = exec_two_args(&s, "txn_put") {
            return Ok(Command::TxnPut { key, value });
        }
        if let Some(key) = exec_one_arg(&s, "txn_delete") {
            return Ok(Command::TxnDelete { key });
        }
        if match_tag(&s, 0, "txn_commit") {
            return Ok(Command::TxnCommit);
        }
        if match_tag(&s, 0, "dump") {
            return Ok(Command::Dump);
        }
        if match_tag(&s, 0, "flush") {
            return Ok(Command::Flush);
        }
        if match_tag(&s, 0, "full_compaction") {
            return Ok(Command::FullCompaction);
        }
        if match_tag(&s, 0, "quit") {
            return Ok(Command::Quit);
        }
        if match_tag(&s, 0, "close") {
            return Ok(Command::Close);
        }
        Err(CommandParseError::Unrecognized)
    }
}

} // verus!
