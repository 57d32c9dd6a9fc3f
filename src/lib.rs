//! A small command-line flag parser: flags are declared one call at a time,
//! each with its usage text, then the argument list is parsed against them.
//!
//! Flags take a single dash (`-name`). A boolean flag is `false` until it
//! occurs; a value flag takes the token after it as its value. Tokens that
//! are not flags are handed back, in order, as the remaining arguments.
use vstd::prelude::*;
use vstd::string::{StrSliceExecFns, StringExecFns};

pub mod errors;
pub mod order;

use crate::errors::Error;
use crate::order::{insert_sorted, lemma_sorted_listing_unique, strictly_sorted, texts};

verus! {

/// The two kinds of flag.
#[derive(Clone, Copy, Debug, PartialEq, Eq)]
pub enum Flag {
    /// A flag that is set by its presence alone.
    Bool,
    /// A flag that takes the next token as its value.
    Value,
}

/// What the parser holds about one declared flag.
pub struct FlagModel {
    /// The flag's current value as text; `None` while it is unset.
    pub value: Option<Seq<char>>,
    /// The description shown in help text.
    pub usage: Seq<char>,
    /// Its kind.
    pub typ: Flag,
}

impl FlagModel {
    /// A boolean flag as declared: its value is `false`.
    pub open spec fn boolean(usage: Seq<char>) -> FlagModel {
        FlagModel { value: Some("false"@), usage, typ: Flag::Bool }
    }

    /// A value flag as declared: it has no value yet.
    pub open spec fn valued(usage: Seq<char>) -> FlagModel {
        FlagModel { value: None, usage, typ: Flag::Value }
    }

    /// The same flag holding `value`.
    pub open spec fn with_value(self, value: Seq<char>) -> FlagModel {
        FlagModel { value: Some(value), ..self }
    }
}

struct FlagEntry {
    name: String,
    value: Option<String>,
    usage: String,
    typ: Flag,
}

impl FlagEntry {
    closed spec fn model(&self) -> FlagModel {
        FlagModel {
            value: match self.value {
                Some(v) => Some(v@),
                None => None,
            },
            usage: self.usage@,
            typ: self.typ,
        }
    }
}

spec fn unique_names(s: Seq<FlagEntry>) -> bool {
    forall|i: int, j: int|
        0 <= i < s.len() && 0 <= j < s.len() && #[trigger] s[i].name@ == #[trigger] s[j].name@
            ==> i == j
}

spec fn has_name(s: Seq<FlagEntry>, k: Seq<char>) -> bool {
    exists|j: int| 0 <= j < s.len() && #[trigger] s[j].name@ == k
}

spec fn index_of(s: Seq<FlagEntry>, k: Seq<char>) -> int {
    choose|j: int| 0 <= j < s.len() && #[trigger] s[j].name@ == k
}

spec fn entries_map(s: Seq<FlagEntry>) -> Map<Seq<char>, FlagModel> {
    Map::new(|k: Seq<char>| has_name(s, k), |k: Seq<char>| s[index_of(s, k)].model())
}

proof fn lemma_entries_map(s: Seq<FlagEntry>)
    requires
        unique_names(s),
    ensures
        forall|i: int|
            0 <= i < s.len() ==> #[trigger] entries_map(s).contains_key(s[i].name@)
                && entries_map(s)[s[i].name@] == s[i].model(),
        forall|k: Seq<char>| #[trigger] entries_map(s).contains_key(k) <==> has_name(s, k),
{
    assert forall|i: int| 0 <= i < s.len() implies #[trigger] entries_map(s).contains_key(
        s[i].name@,
    ) && entries_map(s)[s[i].name@] == s[i].model() by {
        assert(has_name(s, s[i].name@));
        let j = index_of(s, s[i].name@);
        assert(s[j].name@ == s[i].name@);
    }
}

/// The help lines of flag `k`: its name after a dash, with ` value` after
/// the name of a value flag, then a line of its usage after a tab.
pub open spec fn flag_block(k: Seq<char>, f: FlagModel) -> Seq<char> {
    "  -"@ + k + (if f.typ is Value {
        " value"@
    } else {
        Seq::empty()
    }) + "\n\t"@ + f.usage
}

/// The blocks of the flags `ks`, each ended by a newline.
pub open spec fn blocks_text(ks: Seq<Seq<char>>, m: Map<Seq<char>, FlagModel>) -> Seq<char>
    decreases ks.len(),
{
    if ks.len() == 0 {
        Seq::empty()
    } else {
        blocks_text(ks.drop_last(), m) + flag_block(ks.last(), m[ks.last()]) + "\n"@
    }
}

/// The flag part of the help text: the blocks of `ks` joined by newlines,
/// and a final newline.
pub open spec fn flags_text(ks: Seq<Seq<char>>, m: Map<Seq<char>, FlagModel>) -> Seq<char> {
    if ks.len() == 0 {
        "\n"@
    } else {
        blocks_text(ks, m)
    }
}

/// `ks` holds every declared name once, in the order of `name_lt`.
pub open spec fn lists_names(ks: Seq<Seq<char>>, m: Map<Seq<char>, FlagModel>) -> bool {
    strictly_sorted(ks) && ks.to_set() == m.dom()
}

/// The generated help text of a command with the flags `m`.
pub open spec fn default_help(command: Seq<char>, m: Map<Seq<char>, FlagModel>, text: Seq<char>) -> bool {
    exists|ks: Seq<Seq<char>>|
        lists_names(ks, m) && text == "Usage: "@ + command + " [options...]\n"@ + flags_text(ks, m)
}

/// How a scan of the argument tokens ended.
pub enum ScanEnd {
    /// Every token was read.
    Done,
    /// A token named no declared flag; `show_help` tells whether that name
    /// was `help`.
    Exit { show_help: bool },
    /// The named value flag was the last token.
    MissingValue(Seq<char>),
}

/// The state of a scan once it stopped.
pub struct Scan {
    /// The flags, with the values that the scan gave them.
    pub flags: Map<Seq<char>, FlagModel>,
    /// The tokens read so far that were not flags, in order.
    pub remaining: Seq<Seq<char>>,
    /// Why the scan stopped.
    pub end: ScanEnd,
}

/// A token that starts with a dash names a flag.
pub open spec fn is_flag_token(t: Seq<char>) -> bool {
    t.len() > 0 && t[0] == '-'
}

/// The scan of `toks` from position `i` on, with flags `m` and the
/// positional tokens `rem` met before `i`.
pub open spec fn scan(
    m: Map<Seq<char>, FlagModel>,
    toks: Seq<Seq<char>>,
    i: int,
    rem: Seq<Seq<char>>,
) -> Scan
    decreases toks.len() - i,
{
    if i < 0 || i >= toks.len() {
        Scan { flags: m, remaining: rem, end: ScanEnd::Done }
    } else if !is_flag_token(toks[i]) {
        scan(m, toks, i + 1, rem.push(toks[i]))
    } else {
        let name = toks[i].drop_first();
        if !m.contains_key(name) {
            Scan { flags: m, remaining: rem, end: ScanEnd::Exit { show_help: name == "help"@ } }
        } else if m[name].typ is Bool {
            scan(m.insert(name, m[name].with_value("true"@)), toks, i + 1, rem)
        } else if i + 1 >= toks.len() {
            Scan { flags: m, remaining: rem, end: ScanEnd::MissingValue(name) }
        } else {
            scan(m.insert(name, m[name].with_value(toks[i + 1])), toks, i + 2, rem)
        }
    }
}

/// The first of the names `req` that has no value in `m`, if any.
pub open spec fn first_missing(m: Map<Seq<char>, FlagModel>, req: Seq<Seq<char>>) -> Option<
    Seq<char>,
>
    decreases req.len(),
{
    if req.len() == 0 {
        None
    } else if !(m.contains_key(req[0]) && m[req[0]].value is Some) {
        Some(req[0])
    } else {
        first_missing(m, req.drop_first())
    }
}

/// What [`Parser::finalize`] does on a nonempty token list: `p` is the
/// parser afterwards, `sc` the scan of the tokens, `req` the required names.
pub open spec fn finalized(p: Parser, sc: Scan, req: Seq<Seq<char>>, r: Result<Outcome, Error>) -> bool {
    &&& p.flag_map() == sc.flags
    &&& match sc.end {
        ScanEnd::Exit { show_help } => match r {
            Ok(Outcome::Exit(Some(h))) => show_help && p.help_is(h@),
            Ok(Outcome::Exit(None)) => !show_help,
            _ => false,
        },
        ScanEnd::MissingValue(n) => match r {
            Err(Error::MissingValue(k)) => k@ == n,
            _ => false,
        },
        ScanEnd::Done => match first_missing(sc.flags, req) {
            Some(n) => match r {
                Err(Error::MissingArgument(k)) => k@ == n,
                _ => false,
            },
            None => match r {
                Ok(Outcome::Remaining(v)) => texts(v@) == sc.remaining,
                _ => false,
            },
        },
    }
}

/// What parsing leads to when it does not fail.
#[derive(Clone, Debug, PartialEq, Eq)]
pub enum Outcome {
    /// The tokens that were not flags, in the order given.
    Remaining(Vec<String>),
    /// The program is to stop at once with exit status zero, after printing
    /// the text, if any, to standard error. This comes of an empty argument
    /// list (with the help text) and of a flag that was not declared (with
    /// the help text only where that flag is `-help`).
    Exit(Option<String>),
}

enum Step {
    End,
    Arg(String),
    Flag,
    Unknown(bool),
}

/// The parser: the declared flags, and the arguments still to be parsed.
pub struct Parser {
    /// The name of the command, shown in the help text.
    pub command: String,
    flags: Vec<FlagEntry>,
    required: Vec<String>,
    raw_args: Vec<String>,
    help_text: Option<String>,
}

impl Parser {
    /// The command name, as text.
    pub closed spec fn command_text(&self) -> Seq<char> {
        self.command@
    }

    /// The declared flags, by name.
    pub closed spec fn flag_map(&self) -> Map<Seq<char>, FlagModel> {
        entries_map(self.flags@)
    }

    /// The names declared as required, in the order of their declaration.
    pub closed spec fn required_names(&self) -> Seq<Seq<char>> {
        texts(self.required@)
    }

    /// The argument tokens to parse: those given, less the command name.
    pub closed spec fn tokens(&self) -> Seq<Seq<char>> {
        texts(self.raw_args@)
    }

    /// The help text set in place of the generated one, if any.
    pub closed spec fn custom_help(&self) -> Option<Seq<char>> {
        match self.help_text {
            Some(h) => Some(h@),
            None => None,
        }
    }

    /// No two declared flags share a name.
    pub closed spec fn wf(&self) -> bool {
        unique_names(self.flags@)
    }

    /// `text` is this parser's help text.
    pub open spec fn help_is(&self, text: Seq<char>) -> bool {
        match self.custom_help() {
            Some(h) => text == h,
            None => default_help(self.command_text(), self.flag_map(), text),
        }
    }

    /// The value of flag `k`, if it is declared and has one.
    pub open spec fn value_of(&self, k: Seq<char>) -> Option<Seq<char>> {
        if self.flag_map().contains_key(k) {
            self.flag_map()[k].value
        } else {
            None
        }
    }

    /// A parser of `args`, whose first element is the command name.
    pub fn from_vec(args: Vec<String>) -> (r: Parser)
        requires
            args.len() > 0,
        ensures
            r.wf(),
            r.command_text() == args@[0]@,
            r.tokens() == texts(args@).drop_first(),
            r.flag_map() == Map::<Seq<char>, FlagModel>::empty(),
            r.required_names() == Seq::<Seq<char>>::empty(),
            r.custom_help() is None,
    {
        let mut raw_args = args;
        let command = raw_args.remove(0);
        let r = Parser {
            command,
            flags: Vec::new(),
            required: Vec::new(),
            raw_args,
            help_text: None,
        };
        assert(r.flag_map() =~= Map::<Seq<char>, FlagModel>::empty());
        assert(r.tokens() =~= texts(args@).drop_first());
        assert(r.required_names() =~= Seq::<Seq<char>>::empty());
        r
    }

    fn position(&self, flag: &str) -> (r: Option<usize>)
        ensures
            match r {
                Some(i) => i < self.flags@.len() && self.flags@[i as int].name@ == flag@,
                None => !has_name(self.flags@, flag@),
            },
    {
        let key = String::from_str(flag);
        let mut i: usize = 0;
        while i < self.flags.len()
            invariant
                key@ == flag@,
                i <= self.flags@.len(),
                forall|j: int| 0 <= j < i ==> #[trigger] self.flags@[j].name@ != flag@,
            decreases self.flags.len() - i,
        {
            if self.flags[i].name == key {
                return Some(i);
            }
            i = i + 1;
        }
        None
    }

    fn declare(&mut self, entry: FlagEntry)
        requires
            old(self).wf(),
        ensures
            final(self).wf(),
            final(self).flag_map() == old(self).flag_map().insert(entry.name@, entry.model()),
            final(self).required == old(self).required,
            final(self).raw_args == old(self).raw_args,
            final(self).command == old(self).command,
            final(self).help_text == old(self).help_text,
    {
        let ghost s = self.flags@;
        let ghost name = entry.name@;
        let ghost model = entry.model();
        proof {
            lemma_entries_map(s);
        }
        match self.position(entry.name.as_str()) {
            Some(i) => {
                self.flags.set(i, entry);
                proof {
                    let t = self.flags@;
                    assert(t =~= s.update(i as int, entry));
                    assert(unique_names(t)) by {
                        assert forall|a: int, b: int|
                            0 <= a < t.len() && 0 <= b < t.len() && #[trigger] t[a].name@
                                == #[trigger] t[b].name@ implies a == b by {
                            assert(s[a].name@ == t[a].name@);
                            assert(s[b].name@ == t[b].name@);
                        }
                    }
                    lemma_entries_map(t);
                    assert forall|k: Seq<char>| has_name(t, k) <==> has_name(s, k) by {
                        if has_name(t, k) {
                            let j = choose|j: int| 0 <= j < t.len() && #[trigger] t[j].name@ == k;
                            assert(s[j].name@ == k);
                        }
                        if has_name(s, k) {
                            let j = choose|j: int| 0 <= j < s.len() && #[trigger] s[j].name@ == k;
                            assert(t[j].name@ == k);
                        }
                    }
                    assert(entries_map(t) =~= entries_map(s).insert(name, model)) by {
                        assert forall|k: Seq<char>| #[trigger]
                            entries_map(t).contains_key(k) implies entries_map(t)[k]
                            == entries_map(s).insert(name, model)[k] by {
                            let j = choose|j: int| 0 <= j < t.len() && #[trigger] t[j].name@ == k;
                            if j != i {
                                assert(s[j].name@ == k);
                            }
                        }
                    }
                }
            },
            None => {
                self.flags.push(entry);
                proof {
                    let t = self.flags@;
                    assert(t =~= s.push(entry));
                    assert(unique_names(t)) by {
                        assert forall|a: int, b: int|
                            0 <= a < t.len() && 0 <= b < t.len() && #[trigger] t[a].name@
                                == #[trigger] t[b].name@ implies a == b by {
                            if a < s.len() && b == s.len() {
                                assert(has_name(s, name));
                            }
                            if b < s.len() && a == s.len() {
                                assert(has_name(s, name));
                            }
                        }
                    }
                    lemma_entries_map(t);
                    assert forall|k: Seq<char>| has_name(t, k) <==> has_name(s, k) || k == name by {
                        if has_name(t, k) {
                            let j = choose|j: int| 0 <= j < t.len() && #[trigger] t[j].name@ == k;
                            if j < s.len() {
                                assert(s[j].name@ == k);
                            }
                        }
                        if has_name(s, k) {
                            let j = choose|j: int| 0 <= j < s.len() && #[trigger] s[j].name@ == k;
                            assert(t[j].name@ == k);
                        }
                        if k == name {
                            assert(t[s.len() as int].name@ == k);
                        }
                    }
                    assert(entries_map(t) =~= entries_map(s).insert(name, model)) by {
                        assert forall|k: Seq<char>| #[trigger]
                            entries_map(t).contains_key(k) implies entries_map(t)[k]
                            == entries_map(s).insert(name, model)[k] by {
                            let j = choose|j: int| 0 <= j < t.len() && #[trigger] t[j].name@ == k;
                            if j < s.len() {
                                assert(s[j].name@ == k);
                            }
                        }
                    }
                }
            },
        }
    }

    /// Declares a boolean flag named `flag`, whose value is `false` until it
    /// occurs among the arguments. A flag declared before under that name is
    /// replaced.
    pub fn bool_flag(&mut self, flag: &str, usage: &str)
        requires
            old(self).wf(),
        ensures
            final(self).wf(),
            final(self).flag_map() == old(self).flag_map().insert(
                flag@,
                FlagModel::boolean(usage@),
            ),
            final(self).required_names() == old(self).required_names(),
            final(self).tokens() == old(self).tokens(),
            final(self).command_text() == old(self).command_text(),
            final(self).custom_help() == old(self).custom_help(),
    {
        let entry = FlagEntry {
            name: String::from_str(flag),
            value: Some(String::from_str("false")),
            usage: String::from_str(usage),
            typ: Flag::Bool,
        };
        self.declare(entry);
    }

    /// Declares a value flag named `flag` that must have a value once the
    /// arguments are parsed. A flag declared before under that name is
    /// replaced.
    pub fn required_flag(&mut self, flag: &str, usage: &str)
        requires
            old(self).wf(),
        ensures
            final(self).wf(),
            final(self).flag_map() == old(self).flag_map().insert(
                flag@,
                FlagModel::valued(usage@),
            ),
            final(self).required_names() == old(self).required_names().push(flag@),
            final(self).tokens() == old(self).tokens(),
            final(self).command_text() == old(self).command_text(),
            final(self).custom_help() == old(self).custom_help(),
    {
        self.required.push(String::from_str(flag));
        assert(texts(self.required@) =~= old(self).required_names().push(flag@));
        let entry = FlagEntry {
            name: String::from_str(flag),
            value: None,
            usage: String::from_str(usage),
            typ: Flag::Value,
        };
        self.declare(entry);
    }

    /// Declares a value flag named `flag` that may stay unset. A flag
    /// declared before under that name is replaced.
    pub fn optional_flag(&mut self, flag: &str, usage: &str)
        requires
            old(self).wf(),
        ensures
            final(self).wf(),
            final(self).flag_map() == old(self).flag_map().insert(
                flag@,
                FlagModel::valued(usage@),
            ),
            final(self).required_names() == old(self).required_names(),
            final(self).tokens() == old(self).tokens(),
            final(self).command_text() == old(self).command_text(),
            final(self).custom_help() == old(self).custom_help(),
    {
        let entry = FlagEntry {
            name: String::from_str(flag),
            value: None,
            usage: String::from_str(usage),
            typ: Flag::Value,
        };
        self.declare(entry);
    }

    /// The text held by flag `flag`: `None` where no such flag is declared
    /// or it has no value.
    pub fn value_text(&self, flag: &str) -> (r: Option<String>)
        requires
            self.wf(),
        ensures
            match r {
                Some(v) => self.value_of(flag@) == Some(v@),
                None => self.value_of(flag@) is None,
            },
    {
        proof {
            lemma_entries_map(self.flags@);
        }
        match self.position(flag) {
            Some(i) => match &self.flags[i].value {
                Some(v) => Some(v.clone()),
                None => None,
            },
            None => None,
        }
    }

    /// The value of flag `flag`, read as a `T`: `None` where the flag is not
    /// declared, has no value, or its text does not parse as a `T`.
    pub fn get_value<T: std::str::FromStr>(&self, flag: &str) -> (r: Option<T>)
        requires
            self.wf(),
        ensures
            self.value_of(flag@) is None ==> r is None,
    {
        match self.value_text(flag) {
            Some(v) => parse_text(v.as_str()),
            None => None,
        }
    }

    /// The help lines of every declared flag, ordered by name whatever the
    /// order of declaration.
    pub fn help_flags(&self) -> (r: String)
        requires
            self.wf(),
        ensures
            exists|ks: Seq<Seq<char>>|
                lists_names(ks, self.flag_map()) && r@ == flags_text(ks, self.flag_map()),
    {
        let ghost s = self.flags@;
        let ghost m = self.flag_map();
        proof {
            lemma_entries_map(s);
        }
        let mut names: Vec<String> = Vec::new();
        let mut i: usize = 0;
        while i < self.flags.len()
            invariant
                s == self.flags@,
                unique_names(s),
                i <= s.len(),
                strictly_sorted(texts(names@)),
                forall|n: Seq<char>| #[trigger]
                    texts(names@).contains(n) <==> exists|k: int|
                        0 <= k < i && #[trigger] s[k].name@ == n,
            decreases s.len() - i,
        {
            let name = self.flags[i].name.clone();
            proof {
                if texts(names@).contains(name@) {
                    let k = choose|k: int| 0 <= k < i && #[trigger] s[k].name@ == name@;
                    assert(s[i as int].name@ == s[k].name@);
                }
            }
            insert_sorted(&mut names, name);
            proof {
                assert forall|n: Seq<char>| #[trigger]
                    texts(names@).contains(n) implies exists|k: int|
                        0 <= k < i + 1 && #[trigger] s[k].name@ == n by {
                    if n == s[i as int].name@ {
                        assert(s[i as int].name@ == n);
                    }
                }
            }
            i = i + 1;
        }
        let ghost ks = texts(names@);
        proof {
            assert forall|n: Seq<char>| ks.to_set().contains(n) <==> m.dom().contains(n) by {
                if m.dom().contains(n) {
                    let k = choose|k: int| 0 <= k < s.len() && #[trigger] s[k].name@ == n;
                    assert(s[k].name@ == n);
                }
            }
            assert(ks.to_set() =~= m.dom());
        }
        let mut r = String::new();
        let mut j: usize = 0;
        while j < names.len()
            invariant
                s == self.flags@,
                m == self.flag_map(),
                unique_names(s),
                ks == texts(names@),
                ks.to_set() == m.dom(),
                j <= names.len(),
                r@ == blocks_text(ks.take(j as int), m),
                forall|a: int|
                    0 <= a < s.len() ==> #[trigger] m.contains_key(s[a].name@) && m[s[a].name@]
                        == s[a].model(),
            decreases names.len() - j,
        {
            let ghost k = ks[j as int];
            assert(ks.to_set().contains(k));
            match self.position(names[j].as_str()) {
                Some(p) => {
                    let entry = &self.flags[p];
                    r.append("  -");
                    r.append(names[j].as_str());
                    match entry.typ {
                        Flag::Value => r.append(" value"),
                        Flag::Bool => {},
                    }
                    r.append("\n\t");
                    r.append(entry.usage.as_str());
                    r.append("\n");
                    proof {
                        assert(ks.take(j + 1).drop_last() =~= ks.take(j as int));
                        assert(m[k] == entry.model());
                        let empty = Seq::<char>::empty();
                        assert(entry.typ is Bool ==> r@ =~= blocks_text(ks.take(j as int), m) + "  -"@ + k + empty + "\n\t"@ + entry.usage@ + "\n"@);
                    }
                },
                None => {
                    proof {
                        let q = choose|q: int| 0 <= q < s.len() && #[trigger] s[q].name@ == k;
                        assert(has_name(s, k));
                    }
                },
            }
            j = j + 1;
        }
        assert(ks.take(names@.len() as int) =~= ks);
        if names.len() == 0 {
            r = String::from_str("\n");
        }
        assert(lists_names(ks, m) && r@ == flags_text(ks, m));
        r
    }

    /// The help text: the one set by [`Parser::set_help_fn`] if any, else a
    /// usage line naming the command, then [`Parser::help_flags`].
    pub fn help(&self) -> (r: String)
        requires
            self.wf(),
        ensures
            self.help_is(r@),
    {
        match &self.help_text {
            Some(h) => h.clone(),
            None => {
                let mut r = String::from_str("Usage: ");
                r.append(self.command.as_str());
                r.append(" [options...]\n");
                let flags = self.help_flags();
                r.append(flags.as_str());
                proof {
                    let ks = choose|ks: Seq<Seq<char>>|
                        lists_names(ks, self.flag_map()) && flags@ == flags_text(ks, self.flag_map());
                    assert(r@ =~= "Usage: "@ + self.command_text() + " [options...]\n"@ + flags_text(ks, self.flag_map()));
                }
                r
            },
        }
    }

    /// Sets the help text to what `f` returns, in place of the generated one.
    /// `f` is called once, here.
    pub fn set_help_fn(&mut self, f: impl Fn() -> String + 'static)
        requires
            old(self).wf(),
            f.requires(()),
        ensures
            final(self).wf(),
            exists|h: String| f.ensures((), h) && final(self).custom_help() == Some(h@),
            final(self).flag_map() == old(self).flag_map(),
            final(self).required_names() == old(self).required_names(),
            final(self).tokens() == old(self).tokens(),
            final(self).command_text() == old(self).command_text(),
    {
        let h = f();
        let ghost hv = h;
        self.help_text = Some(h);
        assert(f.ensures((), hv) && self.custom_help() == Some(hv@));
    }

    fn consume_flag(&mut self, name: &str, tokens: &Vec<String>, i: usize) -> (r: Result<
        (Step, usize),
        Error,
    >)
        requires
            old(self).wf(),
            i < tokens.len(),
        ensures
            final(self).wf(),
            final(self).required == old(self).required,
            final(self).raw_args == old(self).raw_args,
            final(self).command == old(self).command,
            final(self).help_text == old(self).help_text,
            ({
                let m = old(self).flag_map();
                let toks = texts(tokens@);
                if !m.contains_key(name@) {
                    &&& final(self).flag_map() == m
                    &&& r matches Ok((Step::Unknown(h), j)) && h == (name@ == "help"@) && j == i + 1
                } else if m[name@].typ is Bool {
                    &&& final(self).flag_map() == m.insert(name@, m[name@].with_value("true"@))
                    &&& r matches Ok((Step::Flag, j)) && j == i + 1
                } else if i + 1 >= toks.len() {
                    &&& final(self).flag_map() == m
                    &&& r matches Err(Error::MissingValue(k)) && k@ == name@
                } else {
                    &&& final(self).flag_map() == m.insert(name@, m[name@].with_value(toks[i + 1]))
                    &&& r matches Ok((Step::Flag, j)) && j == i + 2
                }
            }),
    {
        proof {
            lemma_entries_map(self.flags@);
        }
        match self.position(name) {
            None => {
                let help = String::from_str("help");
                let key = String::from_str(name);
                Ok((Step::Unknown(key == help), i + 1))
            },
            Some(p) => {
                let typ = self.flags[p].typ;
                let usage = self.flags[p].usage.clone();
                let ghost old_model = self.flags@[p as int].model();
                match typ {
                    Flag::Bool => {
                        let entry = FlagEntry {
                            name: String::from_str(name),
                            value: Some(String::from_str("true")),
                            usage,
                            typ,
                        };
                        assert(entry.model() == old_model.with_value("true"@));
                        self.declare(entry);
                        Ok((Step::Flag, i + 1))
                    },
                    Flag::Value => {
                        if i + 1 < tokens.len() {
                            let entry = FlagEntry {
                                name: String::from_str(name),
                                value: Some(tokens[i + 1].clone()),
                                usage,
                                typ,
                            };
                            assert(texts(tokens@)[i + 1] == tokens@[i + 1]@);
                            assert(entry.model() == old_model.with_value(tokens@[i + 1]@));
                            self.declare(entry);
                            Ok((Step::Flag, i + 2))
                        } else {
                            Err(Error::MissingValue(String::from_str(name)))
                        }
                    },
                }
            },
        }
    }

    fn parse_next(&mut self, tokens: &Vec<String>, i: usize, Ghost(rem): Ghost<Seq<Seq<char>>>) -> (r:
        Result<(Step, usize), Error>)
        requires
            old(self).wf(),
        ensures
            final(self).wf(),
            final(self).required == old(self).required,
            final(self).raw_args == old(self).raw_args,
            final(self).command == old(self).command,
            final(self).help_text == old(self).help_text,
            ({
                let m = old(self).flag_map();
                let toks = texts(tokens@);
                if i >= toks.len() {
                    &&& final(self).flag_map() == m
                    &&& r matches Ok((Step::End, j)) && j == i
                } else if !is_flag_token(toks[i as int]) {
                    &&& final(self).flag_map() == m
                    &&& r matches Ok((Step::Arg(t), j)) && t@ == toks[i as int] && j == i + 1
                } else {
                    let name = toks[i as int].drop_first();
                    if !m.contains_key(name) {
                        &&& final(self).flag_map() == m
                        &&& r matches Ok((Step::Unknown(h), j)) && h == (name == "help"@) && j == i + 1
                    } else if m[name].typ is Bool {
                        &&& final(self).flag_map() == m.insert(name, m[name].with_value("true"@))
                        &&& r matches Ok((Step::Flag, j)) && j == i + 1
                    } else if i + 1 >= toks.len() {
                        &&& final(self).flag_map() == m
                        &&& r matches Err(Error::MissingValue(k)) && k@ == name
                    } else {
                        &&& final(self).flag_map() == m.insert(
                            name,
                            m[name].with_value(toks[i + 1]),
                        )
                        &&& r matches Ok((Step::Flag, j)) && j == i + 2
                    }
                }
            }),
            i < tokens.len() ==> scan(old(self).flag_map(), texts(tokens@), i as int, rem) == match r {
                Ok((Step::Arg(t), j)) => scan(final(self).flag_map(), texts(tokens@), j as int, rem.push(t@)),
                Ok((Step::Flag, j)) => scan(final(self).flag_map(), texts(tokens@), j as int, rem),
                Ok((Step::Unknown(h), _)) => Scan {
                    flags: final(self).flag_map(),
                    remaining: rem,
                    end: ScanEnd::Exit { show_help: h },
                },
                Ok((Step::End, _)) => Scan { flags: final(self).flag_map(), remaining: rem, end: ScanEnd::Done },
                Err(e) => Scan {
                    flags: final(self).flag_map(),
                    remaining: rem,
                    end: ScanEnd::MissingValue(e.key()),
                },
            },
    {
        if i >= tokens.len() {
            return Ok((Step::End, i));
        }
        let token = tokens[i].as_str();
        let len = token.unicode_len();
        assert(texts(tokens@)[i as int] == token@);
        if len > 0 && token.get_char(0) == '-' {
            let name = token.substring_char(1, len);
            assert(name@ =~= token@.drop_first());
            self.consume_flag(name, tokens, i)
        } else {
            Ok((Step::Arg(tokens[i].clone()), i + 1))
        }
    }

    fn scan_tokens(&mut self, tokens: &Vec<String>) -> (r: Result<Outcome, Error>)
        requires
            old(self).wf(),
        ensures
            final(self).wf(),
            final(self).required == old(self).required,
            final(self).raw_args == old(self).raw_args,
            final(self).command == old(self).command,
            final(self).help_text == old(self).help_text,
            finalized(
                *final(self),
                scan(old(self).flag_map(), texts(tokens@), 0, Seq::empty()),
                old(self).required_names(),
                r,
            ),
    {
        let ghost toks = texts(tokens@);
        let ghost whole = scan(self.flag_map(), toks, 0, Seq::empty());
        let mut remaining: Vec<String> = Vec::new();
        assert(texts(remaining@) =~= Seq::<Seq<char>>::empty());
        let mut i: usize = 0;
        loop
            invariant
                self.wf(),
                self.required == old(self).required,
                self.raw_args == old(self).raw_args,
                self.command == old(self).command,
                self.help_text == old(self).help_text,
                toks == texts(tokens@),
                whole == scan(old(self).flag_map(), toks, 0, Seq::empty()),
                i <= tokens.len(),
                whole == scan(self.flag_map(), toks, i as int, texts(remaining@)),
            ensures
                i >= tokens.len(),
            decreases tokens.len() - i,
        {
            let ghost rem = texts(remaining@);
            match self.parse_next(tokens, i, Ghost(rem)) {
                Ok((Step::Arg(t), j)) => {
                    remaining.push(t);
                    assert(texts(remaining@) =~= rem.push(t@));
                    i = j;
                },
                Ok((Step::Flag, j)) => {
                    i = j;
                },
                Ok((Step::End, _)) => {
                    break;
                },
                Ok((Step::Unknown(h), _)) => {
                    assert(whole.end == ScanEnd::Exit { show_help: h });
                    assert(whole.flags == self.flag_map());
                    if h {
                        let text = self.help();
                        return Ok(Outcome::Exit(Some(text)));
                    } else {
                        return Ok(Outcome::Exit(None));
                    }
                },
                Err(e) => {
                    return Err(e);
                },
            }
        }
        let ghost m = self.flag_map();
        let ghost req = self.required_names();
        proof {
            lemma_entries_map(self.flags@);
            assert(req.skip(0) =~= req);
        }
        assert(whole == Scan { flags: m, remaining: texts(remaining@), end: ScanEnd::Done });
        let mut k: usize = 0;
        while k < self.required.len()
            invariant
                self.wf(),
                self.required == old(self).required,
                self.raw_args == old(self).raw_args,
                self.command == old(self).command,
                self.help_text == old(self).help_text,
                m == self.flag_map(),
                req == self.required_names(),
                whole == scan(old(self).flag_map(), texts(tokens@), 0, Seq::empty()),
                whole == (Scan { flags: m, remaining: texts(remaining@), end: ScanEnd::Done }),
                k <= req.len(),
                first_missing(m, req) == first_missing(m, req.skip(k as int)),
                forall|a: int|
                    0 <= a < self.flags@.len() ==> #[trigger] m.contains_key(self.flags@[a].name@)
                        && m[self.flags@[a].name@] == self.flags@[a].model(),
            decreases req.len() - k,
        {
            let name = self.required[k].as_str();
            assert(req[k as int] == name@);
            assert(req.skip(k as int).drop_first() =~= req.skip(k + 1));
            let present = match self.position(name) {
                Some(p) => self.flags[p].value.is_some(),
                None => false,
            };
            if !present {
                return Err(Error::MissingArgument(self.required[k].clone()));
            }
            k = k + 1;
        }
        Ok(Outcome::Remaining(remaining))
    }

    /// Parses the argument tokens against the declared flags, setting the
    /// value of each flag met, and hands back the tokens that are not flags.
    ///
    /// Fails with [`Error::MissingValue`] where a value flag is the last
    /// token, and with [`Error::MissingArgument`] for the first required
    /// flag, in the order of declaration, that has no value after the scan.
    /// Values set before a failure stay set. An empty token list, and a
    /// token naming no declared flag, give [`Outcome::Exit`]. The tokens are
    /// kept, so a second call parses them again.
    pub fn finalize(&mut self) -> (r: Result<Outcome, Error>)
        requires
            old(self).wf(),
        ensures
            final(self).wf(),
            final(self).tokens() == old(self).tokens(),
            final(self).required_names() == old(self).required_names(),
            final(self).command_text() == old(self).command_text(),
            final(self).custom_help() == old(self).custom_help(),
            old(self).tokens().len() == 0 ==> final(self).flag_map() == old(self).flag_map() && match r {
                Ok(Outcome::Exit(Some(h))) => final(self).help_is(h@),
                _ => false,
            },
            old(self).tokens().len() > 0 ==> finalized(
                *final(self),
                scan(old(self).flag_map(), old(self).tokens(), 0, Seq::empty()),
                old(self).required_names(),
                r,
            ),
    {
        if self.raw_args.len() == 0 {
            let text = self.help();
            return Ok(Outcome::Exit(Some(text)));
        }
        let mut tokens: Vec<String> = Vec::new();
        std::mem::swap(&mut tokens, &mut self.raw_args);
        let r = self.scan_tokens(&tokens);
        std::mem::swap(&mut tokens, &mut self.raw_args);
        r
    }
}

/// The flag part of the help text depends on the declared flags alone, not
/// on the order in which they were declared: any two listings of the names
/// that [`Parser::help_flags`] may use give the same text.
pub proof fn lemma_help_order_fixed(m: Map<Seq<char>, FlagModel>, ka: Seq<Seq<char>>, kb: Seq<Seq<char>>)
    requires
        lists_names(ka, m),
        lists_names(kb, m),
    ensures
        ka == kb,
        flags_text(ka, m) == flags_text(kb, m),
{
    lemma_sorted_listing_unique(ka, kb);
}

/// Declaring a name a second time replaces all that the first declaration
/// gave it: after the two, the flag has the kind, usage and value of the
/// second alone, and the other flags are as they were before the first.
/// Each of [`Parser::bool_flag`], [`Parser::required_flag`] and
/// [`Parser::optional_flag`] changes the flags in the way the two
/// `requires` clauses describe.
pub proof fn lemma_redeclare_last_wins(
    before: Parser,
    between: Parser,
    after: Parser,
    name: Seq<char>,
    first: FlagModel,
    second: FlagModel,
)
    requires
        between.flag_map() == before.flag_map().insert(name, first),
        after.flag_map() == between.flag_map().insert(name, second),
    ensures
        after.flag_map() == before.flag_map().insert(name, second),
        after.flag_map()[name] == second,
{
    assert(after.flag_map() =~= before.flag_map().insert(name, second));
}

/// Relies on `str::parse`, that is `T`'s `FromStr` impl; a parse error
/// becomes `None`.
#[verifier::external_body]
fn parse_text<T: std::str::FromStr>(text: &str) -> Option<T> {
    text.parse::<T>().ok()
}

} // verus!
