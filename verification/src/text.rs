use vstd::prelude::*;

verus! {

/// Spaces and tabs are what a line's indentation is made of.
pub open spec fn is_indent_char(c: char) -> bool {
    c == ' ' || c == '\t'
}

/// Number of indentation characters at the start of `s`.
pub open spec fn indent_width(s: Seq<char>) -> nat
    decreases s.len(),
{
    if s.len() == 0 || !is_indent_char(s[0]) {
        0
    } else {
        1 + indent_width(s.drop_first())
    }
}

/// The leading indentation of `s`: its longest prefix of spaces and tabs.
pub open spec fn leading_indent(s: Seq<char>) -> Seq<char> {
    s.take(indent_width(s) as int)
}

/// Unicode `White_Space`, the property that `char::is_whitespace` tests.
pub open spec fn is_unicode_whitespace(c: char) -> bool {
    let u = c as u32;
    ||| 0x09 <= u <= 0x0d
    ||| u == 0x20
    ||| u == 0x85
    ||| u == 0xa0
    ||| u == 0x1680
    ||| 0x2000 <= u <= 0x200a
    ||| u == 0x2028
    ||| u == 0x2029
    ||| u == 0x202f
    ||| u == 0x205f
    ||| u == 0x3000
}

/// Length of `s` once trailing whitespace is trimmed off.
pub open spec fn trimmed_end_len(s: Seq<char>) -> nat
    decreases s.len(),
{
    if s.len() > 0 && is_unicode_whitespace(s.last()) {
        trimmed_end_len(s.drop_last())
    } else {
        s.len()
    }
}

/// Whether the last non-whitespace character of `s` is a colon (a Python block opener).
pub open spec fn opens_block(s: Seq<char>) -> bool {
    let t = trimmed_end_len(s);
    t > 0 && s[t - 1] == ':'
}

/// One indentation step of a Python-aware editor.
pub open spec fn python_indent_step() -> Seq<char> {
    seq![' ', ' ', ' ', ' ']
}

/// The indentation an editor inserts by itself after the line `prev` is ended:
/// the indentation of `prev`, one step deeper when `prev` opens a block.
pub open spec fn predicted_indent(prev: Seq<char>) -> Seq<char> {
    if opens_block(prev) {
        leading_indent(prev) + python_indent_step()
    } else {
        leading_indent(prev)
    }
}

/// The characters that make a web editor pop up completions.
pub open spec fn is_trigger(c: char) -> bool {
    ||| c == '.'
    ||| c == ':'
    ||| c == '('
    ||| c == '['
    ||| c == ')'
    ||| c == ']'
    ||| c == ','
    ||| c == '>'
    ||| c == '{'
    ||| c == '}'
    ||| c == ';'
    ||| c == '='
}

/// Length of the longest common prefix of `a` and `b`.
pub open spec fn common_prefix_len(a: Seq<char>, b: Seq<char>) -> nat
    decreases a.len(),
{
    if a.len() == 0 || b.len() == 0 || a[0] != b[0] {
        0
    } else {
        1 + common_prefix_len(a.drop_first(), b.drop_first())
    }
}

/// Whether every character of `s` is whitespace.
pub open spec fn is_blank_text(s: Seq<char>) -> bool {
    forall|i: int| 0 <= i < s.len() ==> is_unicode_whitespace(#[trigger] s[i])
}

/// The `indent_width` of a sequence is the one position at which the run of
/// spaces and tabs at its start ends.
pub proof fn lemma_indent_width(s: Seq<char>)
    ensures
        indent_width(s) <= s.len(),
        forall|i: int| 0 <= i < indent_width(s) ==> is_indent_char(#[trigger] s[i]),
        indent_width(s) < s.len() ==> !is_indent_char(s[indent_width(s) as int]),
    decreases s.len(),
{
    if s.len() > 0 && is_indent_char(s[0]) {
        lemma_indent_width(s.drop_first());
        assert forall|i: int| 0 <= i < indent_width(s) implies is_indent_char(#[trigger] s[i]) by {
            if i > 0 {
                assert(s[i] == s.drop_first()[i - 1]);
            }
        }
    }
}

/// A position that ends a run of spaces and tabs at the start of `s` is its `indent_width`.
pub proof fn lemma_indent_width_unique(s: Seq<char>, k: int)
    requires
        0 <= k <= s.len(),
        forall|i: int| 0 <= i < k ==> is_indent_char(#[trigger] s[i]),
        k < s.len() ==> !is_indent_char(s[k]),
    ensures
        indent_width(s) == k,
    decreases s.len(),
{
    if k > 0 {
        assert(is_indent_char(s[0]));
        let t = s.drop_first();
        assert forall|i: int| 0 <= i < k - 1 implies is_indent_char(#[trigger] t[i]) by {
            assert(t[i] == s[i + 1]);
        }
        if k - 1 < t.len() {
            assert(t[k - 1] == s[k]);
        }
        lemma_indent_width_unique(t, k - 1);
    }
}

proof fn lemma_trimmed_end_len_take(s: Seq<char>, t: int)
    requires
        0 < t <= s.len(),
    ensures
        s.take(t).drop_last() == s.take(t - 1),
        s.take(t).last() == s[t - 1],
{
    assert(s.take(t).drop_last() =~= s.take(t - 1));
}

proof fn lemma_common_prefix(a: Seq<char>, b: Seq<char>)
    ensures
        common_prefix_len(a, b) <= a.len(),
        common_prefix_len(a, b) <= b.len(),
        forall|i: int| 0 <= i < common_prefix_len(a, b) ==> #[trigger] a[i] == b[i],
        common_prefix_len(a, b) < a.len() && common_prefix_len(a, b) < b.len()
            ==> a[common_prefix_len(a, b) as int] != b[common_prefix_len(a, b) as int],
    decreases a.len(),
{
    if !(a.len() == 0 || b.len() == 0 || a[0] != b[0]) {
        lemma_common_prefix(a.drop_first(), b.drop_first());
        assert forall|i: int| 0 <= i < common_prefix_len(a, b) implies #[trigger] a[i] == b[i] by {
            if i > 0 {
                assert(a[i] == a.drop_first()[i - 1]);
                assert(b[i] == b.drop_first()[i - 1]);
            }
        }
    }
}

proof fn lemma_common_prefix_skip(a: Seq<char>, b: Seq<char>, k: int)
    requires
        0 <= k <= a.len(),
        k <= b.len(),
        forall|i: int| 0 <= i < k ==> #[trigger] a[i] == b[i],
    ensures
        common_prefix_len(a, b) == k + common_prefix_len(a.skip(k), b.skip(k)),
    decreases k,
{
    if k > 0 {
        assert(a[0] == b[0]);
        let a1 = a.drop_first();
        let b1 = b.drop_first();
        assert forall|i: int| 0 <= i < k - 1 implies #[trigger] a1[i] == b1[i] by {
            assert(a1[i] == a[i + 1]);
            assert(b1[i] == b[i + 1]);
        }
        lemma_common_prefix_skip(a1, b1, k - 1);
        assert(a1.skip(k - 1) =~= a.skip(k));
        assert(b1.skip(k - 1) =~= b.skip(k));
    } else {
        assert(a.skip(0) =~= a);
        assert(b.skip(0) =~= b);
    }
}

/// The characters of a string, in order.
pub fn chars_of(s: &str) -> (v: Vec<char>)
    ensures
        v@ == s@,
{
    let mut v: Vec<char> = Vec::new();
    for c in it: s.chars()
        invariant
            v@ == it.seq().take(it.index()),
    {
        v.push(c);
    }
    v
}

/// Whether `c` is Unicode whitespace (`char::is_whitespace`).
pub fn is_whitespace_char(c: char) -> (b: bool)
    ensures
        b == is_unicode_whitespace(c),
{
    let u = c as u32;
    (0x09 <= u && u <= 0x0d) || u == 0x20 || u == 0x85 || u == 0xa0 || u == 0x1680 || (0x2000
        <= u && u <= 0x200a) || u == 0x2028 || u == 0x2029 || u == 0x202f || u == 0x205f || u
        == 0x3000
}

/// Number of spaces and tabs at the start of `line`.
pub fn indent_width_of(line: &[char]) -> (w: usize)
    ensures
        w == indent_width(line@),
{
    let n = line.len();
    let mut k: usize = 0;
    while k < n && (line[k] == ' ' || line[k] == '\t')
        invariant
            k <= n,
            n == line@.len(),
            forall|i: int| 0 <= i < k ==> is_indent_char(#[trigger] line@[i]),
        decreases n - k,
    {
        k = k + 1;
    }
    proof {
        lemma_indent_width_unique(line@, k as int);
    }
    k
}

/// Whether the last non-whitespace character of `line` is a colon.
pub fn opens_block_of(line: &[char]) -> (b: bool)
    ensures
        b == opens_block(line@),
{
    let n = line.len();
    let mut t: usize = n;
    proof {
        assert(line@.take(n as int) =~= line@);
    }
    while t > 0 && is_whitespace_char(line[t - 1])
        invariant
            t <= n,
            n == line@.len(),
            trimmed_end_len(line@) == trimmed_end_len(line@.take(t as int)),
        decreases t,
    {
        proof {
            lemma_trimmed_end_len_take(line@, t as int);
        }
        t = t - 1;
    }
    proof {
        if t > 0 {
            lemma_trimmed_end_len_take(line@, t as int);
        }
        assert(trimmed_end_len(line@.take(t as int)) == t);
    }
    t > 0 && line[t - 1] == ':'
}

/// Length of the indentation an editor inserts after `prev`.
pub fn predicted_indent_len(prev: &[char]) -> (n: usize)
    requires
        prev@.len() + 4 <= usize::MAX,
    ensures
        n == predicted_indent(prev@).len(),
{
    proof {
        lemma_indent_width(prev@);
    }
    let w = indent_width_of(prev);
    if opens_block_of(prev) {
        w + 4
    } else {
        w
    }
}

/// The leading spaces and tabs of `input` (possibly empty).
pub fn leading_whitespace(input: &str) -> (res: &str)
    ensures
        res@ == leading_indent(input@),
        forall|i: int| 0 <= i < res@.len() ==> is_indent_char(#[trigger] res@[i]),
        res@.len() < input@.len() ==> !is_indent_char(input@[res@.len() as int]),
{
    let chars = chars_of(input);
    let w = indent_width_of(chars.as_slice());
    proof {
        lemma_indent_width(input@);
    }
    input.substring_char(0, w)
}

/// The indentation a Python-aware editor puts on the line after `previous_line`:
/// its own indentation, with four more spaces when it ends in a colon.
pub fn python_predicted_auto_indent(previous_line: &str) -> (res: String)
    ensures
        res@ == predicted_indent(previous_line@),
{
    let chars = chars_of(previous_line);
    let mut predicted = String::from_str(leading_whitespace(previous_line));
    if opens_block_of(chars.as_slice()) {
        predicted.append("    ");
        proof {
            reveal_strlit("    ");
            assert("    "@ =~= python_indent_step());
        }
    }
    predicted
}

/// Whether typing `c` makes web editors pop up completions (and so warrants a pause).
pub fn is_trigger_char(c: char) -> (b: bool)
    ensures
        b == is_trigger(c),
{
    c == '.' || c == ':' || c == '(' || c == '[' || c == ')' || c == ']' || c == ',' || c == '>'
        || c == '{' || c == '}' || c == ';' || c == '='
}

/// How many characters at the start of `actual` match `expected`.
pub fn count_matching_chars(expected: &str, actual: &str) -> (n: usize)
    ensures
        n == common_prefix_len(expected@, actual@),
        n <= expected@.len(),
        n <= actual@.len(),
        forall|i: int| 0 <= i < n ==> #[trigger] expected@[i] == actual@[i],
        n < expected@.len() && n < actual@.len() ==> expected@[n as int] != actual@[n as int],
{
    let e = chars_of(expected);
    let a = chars_of(actual);
    let mut k: usize = 0;
    while k < e.len() && k < a.len() && e[k] == a[k]
        invariant
            k <= e@.len(),
            k <= a@.len(),
            e@ == expected@,
            a@ == actual@,
            forall|i: int| 0 <= i < k ==> #[trigger] e@[i] == a@[i],
        decreases e@.len() - k,
    {
        k = k + 1;
    }
    proof {
        lemma_common_prefix_skip(e@, a@, k as int);
        let es = e@.skip(k as int);
        let as_ = a@.skip(k as int);
        if es.len() > 0 && as_.len() > 0 {
            assert(es[0] == e@[k as int]);
            assert(as_[0] == a@[k as int]);
        }
        assert(common_prefix_len(es, as_) == 0);
        lemma_common_prefix(expected@, actual@);
    }
    k
}

/// Whether `text` holds nothing but whitespace.
pub fn is_blank(text: &str) -> (b: bool)
    ensures
        b == is_blank_text(text@),
{
    let chars = chars_of(text);
    let n = chars.len();
    let mut i: usize = 0;
    while i < n
        invariant
            i <= n,
            n == chars@.len(),
            chars@ == text@,
            forall|j: int| 0 <= j < i ==> is_unicode_whitespace(#[trigger] chars@[j]),
        decreases n - i,
    {
        if !is_whitespace_char(chars[i]) {
            return false;
        }
        i = i + 1;
    }
    true
}


/// Where `trimmed_end_len` cuts: everything after it is whitespace, and the
/// character just before it is not.
pub proof fn lemma_trimmed_end_len(s: Seq<char>)
    ensures
        trimmed_end_len(s) <= s.len(),
        forall|j: int| trimmed_end_len(s) <= j < s.len() ==> is_unicode_whitespace(#[trigger] s[j]),
        trimmed_end_len(s) > 0 ==> !is_unicode_whitespace(s[trimmed_end_len(s) - 1]),
    decreases s.len(),
{
    if s.len() > 0 && is_unicode_whitespace(s.last()) {
        let d = s.drop_last();
        lemma_trimmed_end_len(d);
        assert forall|j: int| trimmed_end_len(s) <= j < s.len() implies is_unicode_whitespace(
            #[trigger] s[j],
        ) by {
            if j < d.len() {
                assert(s[j] == d[j]);
            }
        }
        if trimmed_end_len(s) > 0 {
            assert(s[trimmed_end_len(s) - 1] == d[trimmed_end_len(d) - 1]);
        }
    }
}

/// Only a colon opens a block: a line opens one exactly when, past trailing
/// whitespace, its last character is `:`; the editor then indents the next
/// line four spaces deeper than this one, and otherwise keeps this line's
/// indentation.
pub proof fn law_block_opener_is_colon(s: Seq<char>)
    ensures
        opens_block(s) <==> exists|k: int|
            0 <= k < s.len() && s[k] == ':' && forall|j: int|
                k < j < s.len() ==> is_unicode_whitespace(#[trigger] s[j]),
        predicted_indent(s) == if opens_block(s) {
            leading_indent(s) + seq![' ', ' ', ' ', ' ']
        } else {
            leading_indent(s)
        },
{
    lemma_trimmed_end_len(s);
    let t = trimmed_end_len(s) as int;
    assert(!is_unicode_whitespace(':'));
    if opens_block(s) {
        assert forall|j: int| t - 1 < j < s.len() implies is_unicode_whitespace(#[trigger] s[j]) by {}
    }
    if exists|k: int|
        0 <= k < s.len() && s[k] == ':' && forall|j: int|
            k < j < s.len() ==> is_unicode_whitespace(#[trigger] s[j]) {
        let k = choose|k: int|
            0 <= k < s.len() && s[k] == ':' && forall|j: int|
                k < j < s.len() ==> is_unicode_whitespace(#[trigger] s[j]);
        if t <= k {
            assert(is_unicode_whitespace(s[k]));
        }
        if t - 1 > k {
            assert(is_unicode_whitespace(s[t - 1]));
        }
        assert(t - 1 == k);
    }
    assert(python_indent_step() =~= seq![' ', ' ', ' ', ' ']);
}


/// The completion triggers are exactly the twelve characters
/// `. : ( [ ) ] , > { } ; =`; every other character is typed without a pause.
pub proof fn law_trigger_characters(c: char)
    ensures
        is_trigger(c) <==> seq!['.', ':', '(', '[', ')', ']', ',', '>', '{', '}', ';', '='].contains(
            c,
        ),
{
    let set = seq!['.', ':', '(', '[', ')', ']', ',', '>', '{', '}', ';', '='];
    // Where `c` stands in the list, when it is a trigger.
    let k: int = if c == '.' {
        0
    } else if c == ':' {
        1
    } else if c == '(' {
        2
    } else if c == '[' {
        3
    } else if c == ')' {
        4
    } else if c == ']' {
        5
    } else if c == ',' {
        6
    } else if c == '>' {
        7
    } else if c == '{' {
        8
    } else if c == '}' {
        9
    } else if c == ';' {
        10
    } else {
        11
    };
    if is_trigger(c) {
        assert(set[k] == c);
    }
}

} // verus!
