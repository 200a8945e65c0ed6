//! Turning the process argument vector into the options and the path to list.

use vstd::prelude::*;
use vstd::string::*;

verus! {

/// An option that a flag character switches on.
#[derive(Debug, Clone, Copy, PartialEq, Eq, Structural)]
pub enum CLIOptions {
    /// `a`: list entries whose name starts with a dot.
    All,
    /// `l`: one tab-separated line per entry.
    List,
}

/// What one run lists, and how.
#[derive(Debug, Clone)]
pub struct Config {
    pub options: Vec<CLIOptions>,
    pub path: String,
}

/// A token is a flag when it starts with `-`.
pub open spec fn is_flag(tok: Seq<char>) -> bool {
    tok.len() > 0 && tok[0] == '-'
}

/// The option that a flag character stands for, if it stands for one.
pub open spec fn option_of_char(c: char) -> Option<CLIOptions> {
    if c == 'a' {
        Some(CLIOptions::All)
    } else if c == 'l' {
        Some(CLIOptions::List)
    } else {
        None
    }
}

/// The options that the characters `cs` switch on, in their order.
pub open spec fn options_of_chars(cs: Seq<char>) -> Seq<CLIOptions>
    decreases cs.len(),
{
    if cs.len() == 0 {
        Seq::empty()
    } else {
        let rest = options_of_chars(cs.drop_last());
        match option_of_char(cs.last()) {
            Some(o) => rest.push(o),
            None => rest,
        }
    }
}

/// The options that the flag tokens among `toks` switch on, in their order:
/// every character after the leading `-` of every flag token counts.
pub open spec fn options_of_tokens(toks: Seq<Seq<char>>) -> Seq<CLIOptions>
    decreases toks.len(),
{
    if toks.len() == 0 {
        Seq::empty()
    } else {
        let rest = options_of_tokens(toks.drop_last());
        if is_flag(toks.last()) {
            rest + options_of_chars(toks.last().drop_first())
        } else {
            rest
        }
    }
}

/// The first token that is not a flag, if any.
pub open spec fn first_operand(toks: Seq<Seq<char>>) -> Option<Seq<char>>
    decreases toks.len(),
{
    if toks.len() == 0 {
        None
    } else if !is_flag(toks[0]) {
        Some(toks[0])
    } else {
        first_operand(toks.drop_first())
    }
}

/// The arguments after the program name, as character sequences.
pub open spec fn operands(args: Seq<String>) -> Seq<Seq<char>> {
    if args.len() == 0 {
        Seq::empty()
    } else {
        args.drop_first().map_values(|s: String| s@)
    }
}

/// The options that an argument vector selects.
pub open spec fn options_of_args(args: Seq<String>) -> Seq<CLIOptions> {
    options_of_tokens(operands(args))
}

/// The path that an argument vector selects: its first operand, else `.`.
pub open spec fn path_of_args(args: Seq<String>) -> Seq<char> {
    match first_operand(operands(args)) {
        Some(p) => p,
        None => seq!['.'],
    }
}

/// The flag character that switches on an option.
pub open spec fn char_of_option(o: CLIOptions) -> char {
    match o {
        CLIOptions::All => 'a',
        CLIOptions::List => 'l',
    }
}

/// Whether some flag token among `toks` holds `c` after its leading `-`.
pub open spec fn has_flag_char(toks: Seq<Seq<char>>, c: char) -> bool {
    exists|k: int| 0 <= k < toks.len() && is_flag(toks[k]) && #[trigger] toks[k].drop_first().contains(c)
}

proof fn lemma_chars_select(cs: Seq<char>, o: CLIOptions)
    ensures
        options_of_chars(cs).contains(o) <==> cs.contains(char_of_option(o)),
    decreases cs.len(),
{
    if cs.len() > 0 {
        let init = cs.drop_last();
        lemma_chars_select(init, o);
        assert(cs =~= init.push(cs.last()));
        if init.contains(char_of_option(o)) {
            let k = choose|k: int| 0 <= k < init.len() && init[k] == char_of_option(o);
            assert(cs[k] == char_of_option(o));
        }
        if cs.contains(char_of_option(o)) {
            let k = choose|k: int| 0 <= k < cs.len() && cs[k] == char_of_option(o);
            if k < init.len() {
                assert(init[k] == char_of_option(o));
            }
        }
        match option_of_char(cs.last()) {
            Some(x) => {
                let rest = options_of_chars(init);
                if rest.push(x).contains(o) {
                    let k = choose|k: int| 0 <= k < rest.push(x).len() && rest.push(x)[k] == o;
                    if k < rest.len() {
                        assert(rest[k] == o);
                    }
                }
                if rest.contains(o) {
                    let k = choose|k: int| 0 <= k < rest.len() && rest[k] == o;
                    assert(rest.push(x)[k] == o);
                }
                assert(rest.push(x)[rest.len() as int] == x);
            },
            None => {},
        }
    }
}

proof fn lemma_tokens_select(toks: Seq<Seq<char>>, o: CLIOptions)
    ensures
        options_of_tokens(toks).contains(o) <==> has_flag_char(toks, char_of_option(o)),
    decreases toks.len(),
{
    let c = char_of_option(o);
    if toks.len() > 0 {
        let init = toks.drop_last();
        let last = toks.last();
        lemma_tokens_select(init, o);
        let rest = options_of_tokens(init);
        if has_flag_char(init, c) {
            let k = choose|k: int| 0 <= k < init.len() && is_flag(init[k]) && #[trigger] init[k].drop_first().contains(c);
            assert(toks[k] == init[k]);
        }
        if has_flag_char(toks, c) {
            let k = choose|k: int| 0 <= k < toks.len() && is_flag(toks[k]) && #[trigger] toks[k].drop_first().contains(c);
            if k < init.len() {
                assert(toks[k] == init[k]);
            }
        }
        if is_flag(last) {
            let more = options_of_chars(last.drop_first());
            lemma_chars_select(last.drop_first(), o);
            if (rest + more).contains(o) {
                let k = choose|k: int| 0 <= k < (rest + more).len() && (rest + more)[k] == o;
                if k < rest.len() {
                    assert(rest[k] == o);
                } else {
                    assert(more[k - rest.len()] == o);
                }
            }
            if rest.contains(o) {
                let k = choose|k: int| 0 <= k < rest.len() && rest[k] == o;
                assert((rest + more)[k] == o);
            }
            if more.contains(o) {
                let k = choose|k: int| 0 <= k < more.len() && more[k] == o;
                assert((rest + more)[rest.len() + k] == o);
            }
        }
    }
}

/// An option is selected exactly when some flag token after the program name
/// holds its character (`a` or `l`) after the leading `-`.
pub proof fn lemma_option_selected_iff_flag_char(args: Seq<String>, o: CLIOptions)
    ensures
        options_of_args(args).contains(o) <==> has_flag_char(operands(args), char_of_option(o)),
{
    lemma_tokens_select(operands(args), o);
}

/// The option set does not depend on the order or grouping of flags: two
/// argument vectors whose flag tokens hold the same characters select the
/// same options (`-la`, `-al`, `-l -a` and `-a -l` alike).
pub proof fn lemma_options_ignore_order(a: Seq<String>, b: Seq<String>)
    requires
        forall|c: char| has_flag_char(operands(a), c) <==> has_flag_char(operands(b), c),
    ensures
        forall|o: CLIOptions| options_of_args(a).contains(o) <==> options_of_args(b).contains(o),
{
    assert forall|o: CLIOptions| options_of_args(a).contains(o) <==> options_of_args(b).contains(o) by {
        lemma_option_selected_iff_flag_char(a, o);
        lemma_option_selected_iff_flag_char(b, o);
    }
}

/// Reordering the arguments after the program name selects the same options.
pub proof fn lemma_options_ignore_permutation(a: Seq<String>, b: Seq<String>)
    requires
        operands(a).to_multiset() == operands(b).to_multiset(),
    ensures
        forall|o: CLIOptions| options_of_args(a).contains(o) <==> options_of_args(b).contains(o),
{
    let ta = operands(a);
    let tb = operands(b);
    ta.to_multiset_ensures();
    tb.to_multiset_ensures();
    assert forall|c: char| has_flag_char(ta, c) <==> has_flag_char(tb, c) by {
        if has_flag_char(ta, c) {
            let k = choose|k: int| 0 <= k < ta.len() && is_flag(ta[k]) && #[trigger] ta[k].drop_first().contains(c);
            assert(ta.contains(ta[k]));
            assert(ta.to_multiset().count(ta[k]) > 0);
            assert(tb.to_multiset().count(ta[k]) > 0);
            assert(tb.contains(ta[k]));
            let m = choose|m: int| 0 <= m < tb.len() && tb[m] == ta[k];
            assert(tb[m].drop_first().contains(c));
        }
        if has_flag_char(tb, c) {
            let k = choose|k: int| 0 <= k < tb.len() && is_flag(tb[k]) && #[trigger] tb[k].drop_first().contains(c);
            assert(tb.contains(tb[k]));
            assert(tb.to_multiset().count(tb[k]) > 0);
            assert(ta.to_multiset().count(tb[k]) > 0);
            assert(ta.contains(tb[k]));
            let m = choose|m: int| 0 <= m < ta.len() && ta[m] == tb[k];
            assert(ta[m].drop_first().contains(c));
        }
    }
    lemma_options_ignore_order(a, b);
}

proof fn lemma_chars_concat(u: Seq<char>, v: Seq<char>)
    ensures
        options_of_chars(u + v) == options_of_chars(u) + options_of_chars(v),
    decreases v.len(),
{
    if v.len() == 0 {
        assert(u + v =~= u);
        assert(options_of_chars(u) + options_of_chars(v) =~= options_of_chars(u));
    } else {
        lemma_chars_concat(u, v.drop_last());
        assert((u + v).drop_last() =~= u + v.drop_last());
        assert((u + v).last() == v.last());
        let p = options_of_chars(u);
        let q = options_of_chars(v.drop_last());
        match option_of_char(v.last()) {
            Some(o) => {
                assert((p + q).push(o) =~= p + q.push(o));
            },
            None => {},
        }
    }
}

proof fn lemma_tokens_concat(p: Seq<Seq<char>>, q: Seq<Seq<char>>)
    ensures
        options_of_tokens(p + q) == options_of_tokens(p) + options_of_tokens(q),
        first_operand(p + q) == if first_operand(p) is Some {
            first_operand(p)
        } else {
            first_operand(q)
        },
    decreases p.len() + q.len(),
{
    if q.len() == 0 {
        assert(p + q =~= p);
        assert(options_of_tokens(p) + options_of_tokens(q) =~= options_of_tokens(p));
    } else {
        lemma_tokens_concat(p, q.drop_last());
        assert((p + q).drop_last() =~= p + q.drop_last());
        assert((p + q).last() == q.last());
        let x = options_of_tokens(p);
        let y = options_of_tokens(q.drop_last());
        if is_flag(q.last()) {
            assert(x + y + options_of_chars(q.last().drop_first()) =~= x + (y + options_of_chars(
                q.last().drop_first(),
            )));
        }
    }
    if p.len() > 0 {
        lemma_tokens_concat(p.drop_first(), q);
        assert((p + q).drop_first() =~= p.drop_first() + q);
        assert((p + q)[0] == p[0]);
    } else {
        assert(p + q =~= q);
    }
}

/// Splitting one flag token `-st` into the two tokens `-s` and `-t`, in
/// place, changes neither the options, in their order, nor the path.
pub proof fn lemma_split_flag_token(args: Seq<String>, split: Seq<String>, i: int, s: Seq<char>, t: Seq<char>)
    requires
        1 <= i < args.len(),
        args[i]@ == seq!['-'] + s + t,
        split.len() == args.len() + 1,
        split.take(i) == args.take(i),
        split[i]@ == seq!['-'] + s,
        split[i + 1]@ == seq!['-'] + t,
        split.skip(i + 2) == args.skip(i + 1),
    ensures
        options_of_args(split) == options_of_args(args),
        path_of_args(split) == path_of_args(args),
{
    let ta = operands(args);
    let ts = operands(split);
    let pre = ta.take(i - 1);
    let post = ta.skip(i);
    let whole = seq![args[i]@];
    let parts = seq![split[i]@, split[i + 1]@];
    assert forall|k: int| 0 <= k < i - 1 implies ts[k] == ta[k] by {
        assert(split.take(i)[k + 1] == args.take(i)[k + 1]);
        assert(split.take(i)[k + 1] == split[k + 1]);
        assert(args.take(i)[k + 1] == args[k + 1]);
        assert(ts[k] == split[k + 1]@);
        assert(ta[k] == args[k + 1]@);
    }
    assert forall|k: int| 0 <= k < post.len() implies ts[i + 1 + k] == post[k] by {
        assert(split.skip(i + 2)[k] == args.skip(i + 1)[k]);
        assert(split.skip(i + 2)[k] == split[i + 2 + k]);
        assert(args.skip(i + 1)[k] == args[i + 1 + k]);
        assert(ts[i + 1 + k] == split[i + 2 + k]@);
        assert(post[k] == ta[i + k]);
        assert(ta[i + k] == args[i + 1 + k]@);
    }
    assert(ta =~= pre + whole + post);
    assert(ts =~= pre + parts + post);
    lemma_tokens_concat(pre + whole, post);
    lemma_tokens_concat(pre, whole);
    lemma_tokens_concat(pre + parts, post);
    lemma_tokens_concat(pre, parts);
    let w = args[i]@;
    let x = split[i]@;
    let y = split[i + 1]@;
    assert(w.drop_first() =~= s + t);
    assert(x.drop_first() =~= s);
    assert(y.drop_first() =~= t);
    lemma_chars_concat(s, t);
    assert(whole.drop_last() =~= Seq::<Seq<char>>::empty());
    assert(parts.drop_last() =~= seq![x]);
    assert(seq![x].drop_last() =~= Seq::<Seq<char>>::empty());
    assert(x[0] == '-' && y[0] == '-' && w[0] == '-');
    assert(is_flag(x) && is_flag(y) && is_flag(w));
    assert(seq![x].last() == x);
    assert(options_of_tokens(Seq::<Seq<char>>::empty()) == Seq::<CLIOptions>::empty());
    assert(Seq::<CLIOptions>::empty() + options_of_chars(s) =~= options_of_chars(s));
    assert(options_of_tokens(seq![x]) =~= options_of_chars(s));
    assert(options_of_tokens(whole) =~= options_of_chars(s + t));
    assert(options_of_tokens(parts) =~= options_of_chars(s) + options_of_chars(t));
    assert(whole.drop_first() =~= Seq::<Seq<char>>::empty());
    assert(parts.drop_first() =~= seq![y]);
    assert(seq![y].drop_first() =~= Seq::<Seq<char>>::empty());
    assert(seq![y][0] == y);
    assert(first_operand(Seq::<Seq<char>>::empty()) is None);
    assert(first_operand(seq![y]) is None);
    assert(first_operand(whole) is None);
    assert(first_operand(parts) is None);
}

proof fn lemma_chars_none(cs: Seq<char>)
    requires
        !cs.contains('a'),
        !cs.contains('l'),
    ensures
        options_of_chars(cs) == Seq::<CLIOptions>::empty(),
    decreases cs.len(),
{
    if cs.len() > 0 {
        let init = cs.drop_last();
        assert(cs.last() == cs[cs.len() - 1]);
        assert forall|k: int| 0 <= k < init.len() implies init[k] != 'a' && init[k] != 'l' by {
            assert(init[k] == cs[k]);
        }
        lemma_chars_none(init);
    }
}

proof fn lemma_tokens_insert_inert(toks: Seq<Seq<char>>, j: int, t: Seq<char>)
    requires
        0 <= j <= toks.len(),
        is_flag(t),
        options_of_chars(t.drop_first()) == Seq::<CLIOptions>::empty(),
    ensures
        options_of_tokens(toks.insert(j, t)) == options_of_tokens(toks),
        first_operand(toks.insert(j, t)) == first_operand(toks),
    decreases toks.len(),
{
    let ins = toks.insert(j, t);
    if j == toks.len() {
        assert(ins.drop_last() =~= toks);
        assert(options_of_tokens(toks) + Seq::<CLIOptions>::empty() =~= options_of_tokens(toks));
    } else {
        assert(ins.drop_last() =~= toks.drop_last().insert(j, t));
        assert(ins.last() == toks.last());
        lemma_tokens_insert_inert(toks.drop_last(), j, t);
    }
    if j == 0 {
        assert(ins.drop_first() =~= toks);
    } else {
        assert(ins[0] == toks[0]);
        assert(ins.drop_first() =~= toks.drop_first().insert(j - 1, t));
        lemma_tokens_insert_inert(toks.drop_first(), j - 1, t);
    }
}

/// A flag token whose characters are neither `a` nor `l` changes nothing:
/// wherever it stands after the program name, the options and the path stay.
pub proof fn lemma_unknown_flag_ignored(args: Seq<String>, k: int, tok: String)
    requires
        1 <= k <= args.len(),
        is_flag(tok@),
        !tok@.contains('a'),
        !tok@.contains('l'),
    ensures
        options_of_args(args.insert(k, tok)) == options_of_args(args),
        path_of_args(args.insert(k, tok)) == path_of_args(args),
{
    let t = tok@;
    assert forall|i: int| 0 <= i < t.drop_first().len() implies t.drop_first()[i] != 'a'
        && t.drop_first()[i] != 'l' by {
        assert(t.drop_first()[i] == t[i + 1]);
    }
    lemma_chars_none(t.drop_first());
    assert(operands(args.insert(k, tok)) =~= operands(args).insert(k - 1, t));
    lemma_tokens_insert_inert(operands(args), k - 1, t);
}

proof fn lemma_first_operand_at(toks: Seq<Seq<char>>, j: int)
    requires
        0 <= j <= toks.len(),
        forall|i: int| 0 <= i < j ==> is_flag(#[trigger] toks[i]),
    ensures
        j == toks.len() ==> first_operand(toks) is None,
        j < toks.len() && !is_flag(toks[j]) ==> first_operand(toks) == Some(toks[j]),
    decreases j,
{
    if j > 0 {
        let rest = toks.drop_first();
        assert(is_flag(toks[0]));
        assert forall|i: int| 0 <= i < j - 1 implies is_flag(#[trigger] rest[i]) by {
            assert(rest[i] == toks[i + 1]);
        }
        lemma_first_operand_at(rest, j - 1);
        if j < toks.len() {
            assert(rest[j - 1] == toks[j]);
        }
    }
}

/// With no operand after the program name, the path is `.`.
pub proof fn lemma_path_defaults_to_dot(args: Seq<String>)
    requires
        forall|i: int| 1 <= i < args.len() ==> is_flag(#[trigger] args[i]@),
    ensures
        path_of_args(args) == seq!['.'],
{
    let toks = operands(args);
    if args.len() > 0 {
        assert forall|i: int| 0 <= i < toks.len() implies is_flag(#[trigger] toks[i]) by {
            assert(toks[i] == args[i + 1]@);
        }
    }
    lemma_first_operand_at(toks, toks.len() as int);
}

/// The path is the first argument after the program name that is not a flag,
/// whatever flags stand around it.
pub proof fn lemma_path_is_first_operand(args: Seq<String>, i: int)
    requires
        1 <= i < args.len(),
        !is_flag(args[i]@),
        forall|j: int| 1 <= j < i ==> is_flag(#[trigger] args[j]@),
    ensures
        path_of_args(args) == args[i]@,
{
    let toks = operands(args);
    assert forall|j: int| 0 <= j < i - 1 implies is_flag(#[trigger] toks[j]) by {
        assert(toks[j] == args[j + 1]@);
    }
    assert(toks[i - 1] == args[i]@);
    lemma_first_operand_at(toks, i - 1);
}

fn starts_with_dash(tok: &String) -> (r: bool)
    ensures
        r == is_flag(tok@),
{
    let s = tok.as_str();
    s.unicode_len() > 0 && s.get_char(0) == '-'
}

impl Config {
    /// Reads the options and the path out of the full argument vector,
    /// whose first element (the program name) is discarded.
    pub fn new(args: Vec<String>) -> (r: Config)
        ensures
            r.options@ == options_of_args(args@),
            r.path@ == path_of_args(args@),
    {
        let options = Config::parse_options(&args);
        let path = Config::parse_path(&args);
        Config { options, path }
    }

    /// The first argument after the program name that is not a flag, or `.`.
    pub fn parse_path(args: &Vec<String>) -> (r: String)
        ensures
            r@ == path_of_args(args@),
    {
        let n = args.len();
        if n == 0 {
            proof {
                reveal_strlit(".");
            }
            return String::from_str(".");
        }
        let mut i: usize = 1;
        assert(operands(args@).subrange(0, operands(args@).len() as int) =~= operands(args@));
        while i < n
            invariant
                n == args@.len(),
                1 <= i,
                i <= n,
                operands(args@).len() == n - 1,
                first_operand(operands(args@)) == first_operand(
                    operands(args@).subrange(i - 1, operands(args@).len() as int),
                ),
            decreases n - i,
        {
            let ghost toks = operands(args@);
            let ghost rest = toks.subrange(i - 1, toks.len() as int);
            assert(rest[0] == args@[i as int]@);
            if !starts_with_dash(&args[i]) {
                return args[i].clone();
            }
            assert(rest.drop_first() =~= toks.subrange(i as int, toks.len() as int));
            i = i + 1;
        }
        proof {
            let toks = operands(args@);
            assert(toks.subrange(i - 1, toks.len() as int) =~= Seq::empty());
            reveal_strlit(".");
        }
        String::from_str(".")
    }

    /// The options that the flag tokens after the program name switch on,
    /// in the order of their characters.
    pub fn parse_options(args: &Vec<String>) -> (r: Vec<CLIOptions>)
        ensures
            r@ == options_of_args(args@),
    {
        let mut result: Vec<CLIOptions> = Vec::new();
        let n = args.len();
        if n == 0 {
            return result;
        }
        let mut i: usize = 1;
        assert(operands(args@).subrange(0, 0) =~= Seq::empty());
        while i < n
            invariant
                n == args@.len(),
                1 <= i <= n,
                operands(args@).len() == n - 1,
                result@ == options_of_tokens(operands(args@).subrange(0, i - 1)),
            decreases n - i,
        {
            let ghost toks = operands(args@);
            let ghost done = toks.subrange(0, i - 1);
            let ghost next = toks.subrange(0, i as int);
            assert(next.drop_last() =~= done);
            assert(next.last() == args@[i as int]@);
            if starts_with_dash(&args[i]) {
                let tok = args[i].as_str();
                let len = tok.unicode_len();
                let mut j: usize = 1;
                while j < len
                    invariant
                        len == tok@.len(),
                        1 <= j <= len,
                        result@ == options_of_tokens(done) + options_of_chars(
                            tok@.subrange(1, j as int),
                        ),
                    decreases len - j,
                {
                    let c = tok.get_char(j);
                    proof {
                        let seen = tok@.subrange(1, j + 1);
                        assert(seen.drop_last() =~= tok@.subrange(1, j as int));
                        assert(seen.last() == c);
                    }
                    if c == 'a' {
                        result.push(CLIOptions::All);
                    } else if c == 'l' {
                        result.push(CLIOptions::List);
                    }
                    proof {
                        let seen = tok@.subrange(1, j + 1);
                        let before = options_of_chars(tok@.subrange(1, j as int));
                        assert(options_of_tokens(done) + options_of_chars(seen) =~= result@) by {
                            if option_of_char(c) is Some {
                                assert(options_of_chars(seen) == before.push(option_of_char(c)->0));
                            }
                        }
                    }
                    j = j + 1;
                }
                assert(tok@.subrange(1, len as int) =~= tok@.drop_first());
            }
            i = i + 1;
        }
        proof {
            let toks = operands(args@);
            assert(toks.subrange(0, i - 1) =~= toks);
        }
        result
    }
}

} // verus!
