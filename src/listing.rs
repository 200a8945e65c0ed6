//! The listing itself: resolving every child, ordering by name, and
//! rendering the names or the long form.

use crate::config::{CLIOptions, Config};
use crate::entry::{
    can_fail_with, first_failure, fits_raw, group_name, modified_text, resolve_entry, sound, stamp_of,
    type_of_name, user_name, Entry, EntryType, Failure, ListError, RawEntry,
};
use crate::decimal::{decimal, push_decimal};
use crate::order::{
    lemma_name_lt_asymmetric, lemma_name_lt_total, lemma_name_lt_transitive, name_less, name_lt,
};
use vstd::multiset::Multiset;
use vstd::prelude::*;
use vstd::string::*;

verus! {

/// The resolved, ordered children of one directory and the configuration
/// that they are listed under.
pub struct CLI {
    pub entries: Vec<Entry>,
    pub config: Config,
}

/// Entries in ascending ordinal order of their names.
pub open spec fn sorted_by_name(s: Seq<Entry>) -> bool {
    forall|i: int, j: int| 0 <= i < j < s.len() ==> !name_lt(#[trigger] s[j].filename@, #[trigger] s[i].filename@)
}

/// Entries in strictly ascending ordinal order of their names.
pub open spec fn strictly_sorted_by_name(s: Seq<Entry>) -> bool {
    forall|i: int, j: int| 0 <= i < j < s.len() ==> name_lt(#[trigger] s[i].filename@, #[trigger] s[j].filename@)
}

/// No two children of `raws` carry the same name.
pub open spec fn raw_names_distinct(raws: Seq<RawEntry>) -> bool {
    forall|i: int, j: int|
        0 <= i < raws.len() && 0 <= j < raws.len() && i != j && (#[trigger] raws[i]).name is Some && (#[trigger] raws[j]).name is Some
            ==> raws[i].name->Some_0@ != raws[j].name->Some_0@
}

/// The entries that are listed, chosen by name: all of them with `all`,
/// else those whose name does not start with `.`; their order is kept.
pub open spec fn listed(s: Seq<Entry>, all: bool) -> Seq<Entry>
    decreases s.len(),
{
    if s.len() == 0 {
        s
    } else {
        let rest = listed(s.drop_last(), all);
        if all || type_of_name(s.last().filename@) == EntryType::Normal {
            rest.push(s.last())
        } else {
            rest
        }
    }
}

/// `e` is the record of the child `raw`, its time text formatted from the
/// child's modification time.
pub open spec fn built_entry(e: Entry, raw: RawEntry) -> bool {
    fits_raw(e, raw) && stamp_of(raw) == Some(e.modified_at@)
}

/// `entries` holds, in some order, one record built from each child of `raws`.
pub open spec fn built_from(entries: Seq<Entry>, raws: Seq<RawEntry>) -> bool {
    exists|s: Seq<Entry>|
        {
            &&& s.len() == raws.len()
            &&& forall|i: int| 0 <= i < s.len() ==> built_entry(#[trigger] s[i], raws[i])
            &&& s.to_multiset() == entries.to_multiset()
        }
}

/// `f` is how the child at some index `i` fails, every child before it resolving.
pub open spec fn failed_at(raws: Seq<RawEntry>, f: Failure) -> bool {
    exists|i: int|
        {
            &&& 0 <= i < raws.len()
            &&& forall|j: int| 0 <= j < i ==> sound(#[trigger] raws[j])
            &&& can_fail_with(raws[i], f)
        }
}

/// The entries that are listed: all of them with `all`, else the normal ones;
/// their order is kept.
pub open spec fn shown(s: Seq<Entry>, all: bool) -> Seq<Entry>
    decreases s.len(),
{
    if s.len() == 0 {
        s
    } else {
        let rest = shown(s.drop_last(), all);
        if all || s.last().file_type == EntryType::Normal {
            rest.push(s.last())
        } else {
            rest
        }
    }
}

/// Each name followed by a space.
pub open spec fn short_text(s: Seq<Entry>) -> Seq<char>
    decreases s.len(),
{
    if s.len() == 0 {
        Seq::empty()
    } else {
        short_text(s.drop_last()) + s.last().filename@ + seq![' ']
    }
}

/// The long-form line of one entry: permissions, owner, group, size,
/// modification time and name, tab-separated, numbers in decimal, ending in
/// a newline.
pub open spec fn long_line(e: Entry) -> Seq<char> {
    decimal(e.permissions as nat) + seq!['\t'] + e.owner@ + seq!['\t'] + e.group@ + seq!['\t']
        + decimal(e.file_size as nat) + seq!['\t'] + e.modified_at@ + seq!['\t'] + e.filename@
        + seq!['\n']
}

/// The long-form lines of the entries, in their order.
pub open spec fn long_text(s: Seq<Entry>) -> Seq<char>
    decreases s.len(),
{
    if s.len() == 0 {
        Seq::empty()
    } else {
        long_text(s.drop_last()) + long_line(s.last())
    }
}

/// The text of a listing under the options `options`: the shown entries in
/// long form, or their names on one line ended by a newline.
pub open spec fn rendered(entries: Seq<Entry>, options: Seq<CLIOptions>) -> Seq<char> {
    let v = shown(entries, options.contains(CLIOptions::All));
    if options.contains(CLIOptions::List) {
        long_text(v)
    } else {
        short_text(v) + seq!['\n']
    }
}

/// Whether `o` is among `opts`.
pub fn has_option(opts: &Vec<CLIOptions>, o: CLIOptions) -> (r: bool)
    ensures
        r == opts@.contains(o),
{
    let mut k: usize = 0;
    while k < opts.len()
        invariant
            k <= opts.len(),
            forall|j: int| 0 <= j < k ==> opts@[j] != o,
        decreases opts.len() - k,
    {
        if opts[k] == o {
            return true;
        }
        k = k + 1;
    }
    false
}

fn push_long_line(out: &mut String, e: &Entry)
    ensures
        final(out)@ == old(out)@ + long_line(*e),
{
    let tab = "\t";
    let nl = "\n";
    proof {
        reveal_strlit("\t");
        reveal_strlit("\n");
    }
    push_decimal(out, e.permissions as u64);
    out.append(tab);
    out.append(e.owner.as_str());
    out.append(tab);
    out.append(e.group.as_str());
    out.append(tab);
    push_decimal(out, e.file_size);
    out.append(tab);
    out.append(e.modified_at.as_str());
    out.append(tab);
    out.append(e.filename.as_str());
    out.append(nl);
    assert(final(out)@ =~= old(out)@ + long_line(*e));
}

/// Orders entries by name, ascending in ordinal order, keeping every entry.
pub fn sort_by_name(v: Vec<Entry>) -> (r: Vec<Entry>)
    ensures
        sorted_by_name(r@),
        r@.to_multiset() == v@.to_multiset(),
{
    broadcast use vstd::seq_lib::group_to_multiset_ensures;

    let ghost orig = v@;
    let mut rest = v;
    let mut out: Vec<Entry> = Vec::new();
    assert(out@.to_multiset() =~= Multiset::empty());
    assert(out@.to_multiset().add(rest@.to_multiset()) =~= orig.to_multiset());
    while rest.len() > 0
        invariant
            sorted_by_name(out@),
            forall|i: int, j: int|
                0 <= i < out.len() && 0 <= j < rest.len() ==> !name_lt(
                    #[trigger] rest[j].filename@,
                    #[trigger] out[i].filename@,
                ),
            out@.to_multiset().add(rest@.to_multiset()) == orig.to_multiset(),
        decreases rest.len(),
    {
        let mut m: usize = 0;
        let mut k: usize = 1;
        proof {
            lemma_name_lt_asymmetric(rest[0].filename@, rest[0].filename@);
        }
        while k < rest.len()
            invariant
                m < rest.len(),
                1 <= k <= rest.len(),
                forall|j: int| 0 <= j < k ==> !name_lt(#[trigger] rest[j].filename@, rest[m as int].filename@),
            decreases rest.len() - k,
        {
            if name_less(&rest[k].filename, &rest[m].filename) {
                proof {
                    assert forall|j: int| 0 <= j <= k implies !name_lt(
                        #[trigger] rest[j].filename@,
                        rest[k as int].filename@,
                    ) by {
                        if name_lt(rest[j].filename@, rest[k as int].filename@) {
                            lemma_name_lt_transitive(
                                rest[j].filename@,
                                rest[k as int].filename@,
                                rest[m as int].filename@,
                            );
                        }
                        lemma_name_lt_asymmetric(rest[j].filename@, rest[j].filename@);
                    }
                }
                m = k;
            }
            k = k + 1;
        }
        let ghost before_rest = rest@;
        let ghost before_out = out@;
        let e = rest.remove(m);
        out.push(e);
        proof {
            assert(before_rest[m as int] == e);
            assert forall|j: int| 0 <= j < rest.len() implies !name_lt(
                #[trigger] rest[j].filename@,
                e.filename@,
            ) by {
                if j < m {
                    assert(rest[j] == before_rest[j]);
                } else {
                    assert(rest[j] == before_rest[j + 1]);
                }
            }
            assert forall|i: int, j: int|
                0 <= i < out.len() && 0 <= j < rest.len() implies !name_lt(
                #[trigger] rest[j].filename@,
                #[trigger] out[i].filename@,
            ) by {
                if i < before_out.len() {
                    assert(out[i] == before_out[i]);
                    if j < m {
                        assert(rest[j] == before_rest[j]);
                    } else {
                        assert(rest[j] == before_rest[j + 1]);
                    }
                }
            }
            assert forall|i: int, j: int| 0 <= i < j < out.len() implies !name_lt(
                #[trigger] out[j].filename@,
                #[trigger] out[i].filename@,
            ) by {
                if j < before_out.len() {
                    assert(out[i] == before_out[i]);
                    assert(out[j] == before_out[j]);
                } else {
                    assert(out[i] == before_out[i]);
                    assert(out[j] == e);
                }
            }
            before_out.to_multiset_ensures();
            before_rest.to_multiset_ensures();
            assert(out@ == before_out.push(e));
            assert(out@.to_multiset() == before_out.to_multiset().insert(e));
            assert(rest@ == before_rest.remove(m as int));
            assert(rest@.to_multiset() == before_rest.to_multiset().remove(e));
            assert(before_rest.contains(e));
            assert(before_rest.to_multiset().count(e) > 0);
            assert(out@.to_multiset().add(rest@.to_multiset()) =~= orig.to_multiset());
        }
    }
    assert(rest@.to_multiset() =~= Multiset::empty());
    assert(out@.to_multiset() =~= orig.to_multiset());
    out
}

impl CLI {
    /// The entries are ordered by name, and each entry's visibility follows
    /// its name.
    pub open spec fn wf(&self) -> bool {
        &&& sorted_by_name(self.entries@)
        &&& forall|k: int|
            0 <= k < self.entries@.len() ==> (#[trigger] self.entries@[k]).file_type == type_of_name(
                self.entries@[k].filename@,
            )
    }

    /// Resolves every child of the listed directory and orders the records
    /// by name. `listing` is the enumeration of the directory named by the
    /// configuration, or the system's message when it could not be opened or
    /// read. The first child that fails to resolve ends the build with its
    /// failure; no partial listing is returned.
    pub fn from_listing(config: Config, listing: Result<Vec<RawEntry>, String>) -> (r: Result<CLI, ListError>)
        ensures
            listing matches Err(m) ==> r is Err && r->Err_0@ == Failure::DirectoryUnavailable(m@),
            listing matches Ok(raws) ==> match r {
                Ok(cli) => {
                    &&& cli.config == config
                    &&& cli.wf()
                    &&& raw_names_distinct(raws@) ==> strictly_sorted_by_name(cli.entries@)
                    &&& built_from(cli.entries@, raws@)
                },
                Err(e) => failed_at(raws@, e@),
            },
            listing matches Ok(raws) && (forall|i: int| 0 <= i < raws@.len() ==> sound(#[trigger] raws@[i]))
                ==> (r is Err ==> r->Err_0@ is IdentityResolutionFailed),
    {
        let raws = match listing {
            Err(m) => {
                return Err(ListError::DirectoryUnavailable(m));
            },
            Ok(raws) => raws,
        };
        let ghost all = raws@;
        let mut rest = raws;
        let mut built: Vec<Entry> = Vec::new();
        let ghost mut i: int = 0;
        while rest.len() > 0
            invariant
                0 <= i <= all.len(),
                listing is Ok && listing->Ok_0@ == all,
                rest@ == all.subrange(i, all.len() as int),
                built@.len() == i,
                forall|j: int| 0 <= j < i ==> built_entry(#[trigger] built@[j], all[j]),
                forall|j: int| 0 <= j < i ==> sound(#[trigger] all[j]),
            decreases rest.len(),
        {
            let raw = rest.remove(0);
            let ghost raw0 = raw;
            assert(raw0 == all[i]);
            let mut owner: Option<String> = None;
            let mut group: Option<String> = None;
            let mut stamp: Option<String> = None;
            if let Ok(md) = &raw.metadata {
                owner = user_name(md.uid);
                if owner.is_some() {
                    group = group_name(md.gid);
                    if group.is_some() {
                        if let Ok(t) = &md.modified {
                            stamp = modified_text(*t);
                        }
                    }
                }
            }
            proof {
                if raw0.metadata is Ok && owner is Some && group is Some && raw0.metadata->Ok_0.modified is Ok {
                    assert(stamp is Some <==> stamp_of(raw0) is Some);
                }
            }
            match resolve_entry(raw, owner, group, stamp) {
                Ok(e) => {
                    built.push(e);
                    assert(built@[i] == e);
                },
                Err(x) => {
                    proof {
                        assert(first_failure(raw0, owner is Some, group is Some, stamp_of(raw0) is Some) == Some(x@));
                        assert(can_fail_with(all[i], x@));
                        assert(failed_at(all, x@));
                        if sound(raw0) {
                            assert(x@ is IdentityResolutionFailed);
                        }
                    }
                    return Err(x);
                },
            }
            proof {
                i = i + 1;
                assert(rest@ =~= all.subrange(i, all.len() as int));
            }
        }
        assert(built@.len() == all.len());
        let entries = sort_by_name(built);
        assert(built_from(entries@, all)) by {
            assert(forall|j: int| 0 <= j < built@.len() ==> built_entry(#[trigger] built@[j], all[j]));
        }
        proof {
            built@.to_multiset_ensures();
            entries@.to_multiset_ensures();
            assert forall|k: int| 0 <= k < entries@.len() implies (#[trigger] entries@[k]).file_type
                == type_of_name(entries@[k].filename@) by {
                assert(entries@.contains(entries@[k]));
                assert(entries@.to_multiset().count(entries@[k]) > 0);
                assert(built@.to_multiset().count(entries@[k]) > 0);
                assert(built@.contains(entries@[k]));
                let j = choose|j: int| 0 <= j < built@.len() && built@[j] == entries@[k];
                assert(built_entry(built@[j], all[j]));
            }
            if raw_names_distinct(all) {
                assert(names_distinct(built@)) by {
                    assert forall|a: int, b: int|
                        0 <= a < built@.len() && 0 <= b < built@.len() && a != b implies (#[trigger] built@[a]).filename@
                        != (#[trigger] built@[b]).filename@ by {
                        assert(built_entry(built@[a], all[a]));
                        assert(built_entry(built@[b], all[b]));
                    }
                }
                lemma_distinct_kept(built@, entries@);
                lemma_sorted_distinct_strict(entries@);
            }
        }
        Ok(CLI { entries, config })
    }

    /// The text of the listing: without the `List` option the shown names,
    /// each followed by a space, then a newline; with it one long-form line
    /// per shown entry. Hidden entries are shown only with the `All` option.
    pub fn render(&self) -> (r: String)
        ensures
            r@ == rendered(self.entries@, self.config.options@),
            self.wf() ==> forall|all: bool| shown(self.entries@, all) == #[trigger] listed(self.entries@, all),
    {
        proof {
            if self.wf() {
                assert forall|all: bool| shown(self.entries@, all) == #[trigger] listed(self.entries@, all) by {
                    lemma_shown_by_name(self.entries@, all);
                }
            }
        }
        let all = has_option(&self.config.options, CLIOptions::All);
        let long = has_option(&self.config.options, CLIOptions::List);
        let space = " ";
        let nl = "\n";
        proof {
            reveal_strlit(" ");
            reveal_strlit("\n");
        }
        let ghost es = self.entries@;
        let mut out = String::new();
        let n = self.entries.len();
        let mut i: usize = 0;
        assert(es.take(0) =~= Seq::<Entry>::empty());
        while i < n
            invariant
                n == es.len(),
                es == self.entries@,
                i <= n,
                space@ == seq![' '],
                out@ == if long {
                    long_text(shown(es.take(i as int), all))
                } else {
                    short_text(shown(es.take(i as int), all))
                },
            decreases n - i,
        {
            let e = &self.entries[i];
            assert(es.take(i + 1).drop_last() =~= es.take(i as int));
            assert(es.take(i + 1).last() == *e);
            if all || e.file_type == EntryType::Normal {
                if long {
                    push_long_line(&mut out, e);
                } else {
                    out.append(e.filename.as_str());
                    out.append(space);
                }
                proof {
                    let prev = shown(es.take(i as int), all);
                    assert(prev.push(*e).drop_last() =~= prev);
                    assert(shown(es.take(i + 1), all) == prev.push(*e));
                    assert(short_text(prev.push(*e)) =~= short_text(prev) + e.filename@ + seq![' ']);
                }
            }
            i = i + 1;
        }
        assert(es.take(n as int) =~= es);
        if !long {
            out.append(nl);
        }
        out
    }

    /// A name starting with `.` is hidden; every other name is normal.
    pub fn get_file_type(filename: &String) -> (r: EntryType)
        ensures
            r == type_of_name(filename@),
    {
        let s = filename.as_str();
        if s.unicode_len() > 0 && s.get_char(0) == '.' {
            EntryType::Hidden
        } else {
            EntryType::Normal
        }
    }
}

} // verus!

verus! {

proof fn lemma_shown_from(s: Seq<Entry>, all: bool)
    ensures
        shown(s, all).len() <= s.len(),
        forall|k: int| 0 <= k < shown(s, all).len() ==> s.contains(#[trigger] shown(s, all)[k]),
        forall|k: int| 0 <= k < shown(s, all).len() ==> all || (#[trigger] shown(s, all)[k]).file_type == EntryType::Normal,
    decreases s.len(),
{
    if s.len() > 0 {
        let init = s.drop_last();
        lemma_shown_from(init, all);
        let prev = shown(init, all);
        assert forall|k: int| 0 <= k < shown(s, all).len() implies s.contains(#[trigger] shown(s, all)[k]) by {
            if k < prev.len() {
                assert(shown(s, all)[k] == prev[k]);
                let j = choose|j: int| 0 <= j < init.len() && init[j] == prev[k];
                assert(s[j] == init[j]);
            } else {
                assert(shown(s, all)[k] == s[s.len() - 1]);
            }
        }
        assert forall|k: int| 0 <= k < shown(s, all).len() implies all || (#[trigger] shown(s, all)[k]).file_type == EntryType::Normal by {
            if k < prev.len() {
                assert(shown(s, all)[k] == prev[k]);
            }
        }
    }
}

/// Without the `All` option no hidden entry is listed, so no listed name
/// starts with `.` where each entry's visibility follows its name; with it,
/// every entry is listed.
pub proof fn lemma_hidden_shown_only_with_all(s: Seq<Entry>)
    requires
        forall|k: int| 0 <= k < s.len() ==> (#[trigger] s[k]).file_type == type_of_name(s[k].filename@),
    ensures
        forall|k: int|
            0 <= k < shown(s, false).len() ==> !((#[trigger] shown(s, false)[k]).filename@.len() > 0
                && shown(s, false)[k].filename@[0] == '.'),
        shown(s, true) == s,
    decreases s.len(),
{
    lemma_shown_from(s, false);
    assert forall|k: int| 0 <= k < shown(s, false).len() implies !((#[trigger] shown(s, false)[k]).filename@.len() > 0
        && shown(s, false)[k].filename@[0] == '.') by {
        let j = choose|j: int| 0 <= j < s.len() && s[j] == shown(s, false)[k];
        assert(s[j].file_type == type_of_name(s[j].filename@));
    }
    if s.len() > 0 {
        let init = s.drop_last();
        assert forall|k: int| 0 <= k < init.len() implies (#[trigger] init[k]).file_type == type_of_name(init[k].filename@) by {
            assert(init[k] == s[k]);
        }
        lemma_hidden_shown_only_with_all(init);
        assert(s =~= init.push(s.last()));
    }
}

/// Filtering keeps the order: the entries listed from a listing ordered by
/// name are ordered by name too.
pub proof fn lemma_shown_keeps_order(s: Seq<Entry>, all: bool)
    requires
        sorted_by_name(s),
    ensures
        sorted_by_name(shown(s, all)),
    decreases s.len(),
{
    if s.len() > 0 {
        let init = s.drop_last();
        assert(sorted_by_name(init)) by {
            assert forall|i: int, j: int| 0 <= i < j < init.len() implies !name_lt(
                #[trigger] init[j].filename@,
                #[trigger] init[i].filename@,
            ) by {
                assert(init[i] == s[i] && init[j] == s[j]);
            }
        }
        lemma_shown_keeps_order(init, all);
        lemma_shown_from(init, all);
        let prev = shown(init, all);
        let last = s.last();
        if all || last.file_type == EntryType::Normal {
            let cur = prev.push(last);
            assert forall|i: int, j: int| 0 <= i < j < cur.len() implies !name_lt(
                #[trigger] cur[j].filename@,
                #[trigger] cur[i].filename@,
            ) by {
                assert(cur[i] == prev[i]);
                if j < prev.len() {
                    assert(cur[j] == prev[j]);
                } else {
                    let p = choose|p: int| 0 <= p < init.len() && init[p] == prev[i];
                    assert(s[p] == init[p]);
                    assert(cur[j] == s[s.len() - 1]);
                }
            }
        }
    }
}

/// The short form is a single line: where no name holds a newline, the
/// names and their spaces hold none, so the text ends in its only newline.
pub proof fn lemma_short_form_single_line(s: Seq<Entry>)
    requires
        forall|k: int| 0 <= k < s.len() ==> !(#[trigger] s[k]).filename@.contains('\n'),
    ensures
        !short_text(s).contains('\n'),
        (short_text(s) + seq!['\n']).last() == '\n',
    decreases s.len(),
{
    if s.len() > 0 {
        let init = s.drop_last();
        assert forall|k: int| 0 <= k < init.len() implies !(#[trigger] init[k]).filename@.contains('\n') by {
            assert(init[k] == s[k]);
        }
        lemma_short_form_single_line(init);
        let name = s.last().filename@;
        assert(!name.contains('\n'));
        let t = short_text(s);
        assert(t == short_text(init) + name + seq![' ']);
        if t.contains('\n') {
            let k = choose|k: int| 0 <= k < t.len() && t[k] == '\n';
            if k < short_text(init).len() {
                assert(short_text(init)[k] == '\n');
            } else if k < short_text(init).len() + name.len() {
                assert(name[k - short_text(init).len()] == '\n');
            }
        }
    }
}

proof fn lemma_shown_by_name(s: Seq<Entry>, all: bool)
    requires
        forall|k: int| 0 <= k < s.len() ==> (#[trigger] s[k]).file_type == type_of_name(s[k].filename@),
    ensures
        shown(s, all) == listed(s, all),
    decreases s.len(),
{
    if s.len() > 0 {
        let init = s.drop_last();
        assert forall|k: int| 0 <= k < init.len() implies (#[trigger] init[k]).file_type == type_of_name(init[k].filename@) by {
            assert(init[k] == s[k]);
        }
        lemma_shown_by_name(init, all);
        assert(s.last() == s[s.len() - 1]);
    }
}

/// Distinct names stay distinct when the same entries are reordered.
proof fn lemma_distinct_kept(a: Seq<Entry>, b: Seq<Entry>)
    requires
        names_distinct(a),
        a.to_multiset() == b.to_multiset(),
    ensures
        names_distinct(b),
{
    a.to_multiset_ensures();
    b.to_multiset_ensures();
    assert(a.no_duplicates()) by {
        assert forall|i: int, j: int| 0 <= i < a.len() && 0 <= j < a.len() && i != j implies a[i] != a[j] by {
            assert(a[i].filename@ != a[j].filename@);
        }
    }
    a.lemma_multiset_has_no_duplicates();
    assert forall|x: Entry| b.to_multiset().contains(x) implies b.to_multiset().count(x) == 1 by {
        assert(a.to_multiset().contains(x));
    }
    b.lemma_multiset_has_no_duplicates_conv();
    assert forall|i: int, j: int| 0 <= i < b.len() && 0 <= j < b.len() && i != j implies (#[trigger] b[i]).filename@
        != (#[trigger] b[j]).filename@ by {
        assert(b.contains(b[i]) && b.contains(b[j]));
        assert(b.to_multiset().count(b[i]) > 0 && b.to_multiset().count(b[j]) > 0);
        assert(a.to_multiset().count(b[i]) > 0 && a.to_multiset().count(b[j]) > 0);
        assert(a.contains(b[i]) && a.contains(b[j]));
        let p = choose|p: int| 0 <= p < a.len() && a[p] == b[i];
        let q = choose|q: int| 0 <= q < a.len() && a[q] == b[j];
        assert(b[i] != b[j]);
        assert(p != q);
    }
}

/// A name-ordered sequence with no name twice is strictly ascending.
pub proof fn lemma_sorted_distinct_strict(s: Seq<Entry>)
    requires
        sorted_by_name(s),
        names_distinct(s),
    ensures
        strictly_sorted_by_name(s),
{
    assert forall|i: int, j: int| 0 <= i < j < s.len() implies name_lt(
        #[trigger] s[i].filename@,
        #[trigger] s[j].filename@,
    ) by {
        assert(!name_lt(s[j].filename@, s[i].filename@));
        assert(s[i].filename@ != s[j].filename@);
        lemma_name_lt_total(s[i].filename@, s[j].filename@);
    }
}

/// No two entries share a name.
pub open spec fn names_distinct(s: Seq<Entry>) -> bool {
    forall|i: int, j: int| 0 <= i < s.len() && 0 <= j < s.len() && i != j ==> (#[trigger] s[i]).filename@ != (#[trigger] s[j]).filename@
}

/// The order of a listing does not depend on the order in which the system
/// enumerated the directory: two name-ordered sequences of the same entries,
/// with no name twice, are equal.
pub proof fn lemma_sorted_listing_unique(a: Seq<Entry>, b: Seq<Entry>)
    requires
        sorted_by_name(a),
        sorted_by_name(b),
        names_distinct(a),
        a.to_multiset() == b.to_multiset(),
    ensures
        a == b,
    decreases a.len(),
{
    a.to_multiset_ensures();
    b.to_multiset_ensures();
    if a.len() == 0 {
        assert(b.len() == 0);
        assert(a =~= b);
    } else {
        assert(b.len() == a.len());
        assert(a.contains(a[0]));
        assert(a.to_multiset().count(a[0]) > 0);
        assert(b.to_multiset().count(a[0]) > 0);
        assert(b.contains(a[0]));
        assert(b.contains(b[0]));
        assert(b.to_multiset().count(b[0]) > 0);
        assert(a.to_multiset().count(b[0]) > 0);
        assert(a.contains(b[0]));
        let q = choose|q: int| 0 <= q < b.len() && b[q] == a[0];
        let p = choose|p: int| 0 <= p < a.len() && a[p] == b[0];
        if q > 0 {
            assert(!name_lt(b[q].filename@, b[0].filename@));
        }
        if p > 0 {
            assert(!name_lt(a[p].filename@, a[0].filename@));
        }
        lemma_name_lt_total(a[0].filename@, a[p].filename@);
        lemma_name_lt_asymmetric(a[0].filename@, a[p].filename@);
        assert(p == 0);
        assert(a[0] == b[0]);
        let ta = a.drop_first();
        let tb = b.drop_first();
        assert(a.remove(0) =~= ta);
        assert(b.remove(0) =~= tb);
        assert(ta.to_multiset() == tb.to_multiset());
        assert(sorted_by_name(ta)) by {
            assert forall|i: int, j: int| 0 <= i < j < ta.len() implies !name_lt(
                #[trigger] ta[j].filename@,
                #[trigger] ta[i].filename@,
            ) by {
                assert(ta[i] == a[i + 1] && ta[j] == a[j + 1]);
            }
        }
        assert(sorted_by_name(tb)) by {
            assert forall|i: int, j: int| 0 <= i < j < tb.len() implies !name_lt(
                #[trigger] tb[j].filename@,
                #[trigger] tb[i].filename@,
            ) by {
                assert(tb[i] == b[i + 1] && tb[j] == b[j + 1]);
            }
        }
        assert(names_distinct(ta)) by {
            assert forall|i: int, j: int| 0 <= i < ta.len() && 0 <= j < ta.len() && i != j implies (#[trigger] ta[i]).filename@ != (#[trigger] ta[j]).filename@ by {
                assert(ta[i] == a[i + 1] && ta[j] == a[j + 1]);
            }
        }
        lemma_sorted_listing_unique(ta, tb);
        assert(a =~= b) by {
            assert forall|i: int| 0 <= i < a.len() implies a[i] == b[i] by {
                if i > 0 {
                    assert(a[i] == ta[i - 1] && b[i] == tb[i - 1]);
                }
            }
        }
    }
}

} // verus!
