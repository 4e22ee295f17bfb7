//! Command line options: the tables that commands declare, and what a command line gives of them.

use crate::text;
use vstd::prelude::*;

verus! {

broadcast use vstd::string::group_string_axioms;

/// What may follow an option.
#[derive(Debug, Clone, Copy, PartialEq, Eq, Structural)]
pub enum Arity {
    /// Nothing. Given at most once.
    Flag,
    /// A value. Given at most once.
    Value,
    /// A value, each time that the option is given.
    Values,
}

/// An option that a command takes.
#[derive(Clone, Copy)]
pub struct OptDef {
    /// The one-letter name; the null character where there is none.
    pub short: char,
    /// The long name; empty where there is none.
    pub long: &'static str,
    pub arity: Arity,
}

/// A declared option: its short name (empty or one letter), its long name, whether it takes a
/// value, and whether it may be repeated.
pub type Definition = (Seq<char>, Seq<char>, bool, bool);

pub open spec fn short_name(short: char) -> Seq<char> {
    if short == '\0' {
        Seq::empty()
    } else {
        seq![short]
    }
}

pub open spec fn definition(short: char, long: Seq<char>, arity: Arity) -> Definition {
    (short_name(short), long, arity != Arity::Flag, arity == Arity::Values)
}

/// The definitions that a table declares.
pub open spec fn definitions(table: Seq<OptDef>) -> Seq<Definition> {
    Seq::new(table.len(), |i: int| definition(table[i].short, table[i].long@, table[i].arity))
}

/// Whether a definition can be declared: it has a name, the short one is a single ASCII
/// character, and the long one is longer than a character.
pub open spec fn declarable(d: Definition) -> bool {
    &&& d.0.len() <= 1
    &&& d.0.len() == 1 ==> (d.0[0] as u32) < 128
    &&& d.1.len() != 1
    &&& d.0.len() + d.1.len() > 0
}

pub open spec fn all_declarable(defs: Seq<Definition>) -> bool {
    forall|i: int| 0 <= i < defs.len() ==> declarable(#[trigger] defs[i])
}

#[verifier::external_type_specification]
#[verifier::external_body]
pub struct ExOptions(getopts::Options);

#[verifier::external_type_specification]
#[verifier::external_body]
pub struct ExMatches(getopts::Matches);

/// The definitions that a `getopts::Options` holds, in the order in which they were added.
pub uninterp spec fn declared(options: getopts::Options) -> Seq<Definition>;

/// The definitions that a `getopts::Matches` was parsed with.
pub uninterp spec fn matched_defs(matches: getopts::Matches) -> Seq<Definition>;

/// For each definition, what a `getopts::Matches` holds of it: one entry each time that the
/// option was given, with the value where it came with one.
pub uninterp spec fn matched_values(matches: getopts::Matches) -> Seq<Seq<Option<Seq<char>>>>;

/// The arguments of a `getopts::Matches` that belong to no option.
pub uninterp spec fn matched_free(matches: getopts::Matches) -> Seq<Seq<char>>;

/// What `getopts::Options::parse` makes of arguments: for each definition what was given of it,
/// and the arguments that belong to no option; or the words of its error.
pub uninterp spec fn getopts_parse(defs: Seq<Definition>, args: Seq<Seq<char>>) -> Result<
    (Seq<Seq<Option<Seq<char>>>>, Seq<Seq<char>>),
    Seq<char>,
>;

/// `getopts::Options::new` holds no definition.
#[verifier::external_body]
fn no_options() -> (r: getopts::Options)
    ensures
        declared(r) == Seq::<Definition>::empty(),
{
    getopts::Options::new()
}

/// `getopts::Options::optflag` adds an option without a value, given at most once. It panics on
/// names that are not declarable. The description only serves the usage text, which is not used.
#[verifier::external_body]
fn add_flag(options: &mut getopts::Options, short: &str, long: &str)
    requires
        declarable((short@, long@, false, false)),
    ensures
        declared(*final(options)) == declared(*old(options)).push((short@, long@, false, false)),
{
    options.optflag(short, long, "");
}

/// `getopts::Options::optopt` adds an option with a value, given at most once. It panics on names
/// that are not declarable. The description and the hint only serve the usage text.
#[verifier::external_body]
fn add_value(options: &mut getopts::Options, short: &str, long: &str)
    requires
        declarable((short@, long@, true, false)),
    ensures
        declared(*final(options)) == declared(*old(options)).push((short@, long@, true, false)),
{
    options.optopt(short, long, "", "");
}

/// `getopts::Options::optmulti` adds an option with a value that may be given many times. It
/// panics on names that are not declarable. The description and the hint only serve the usage
/// text.
#[verifier::external_body]
fn add_values(options: &mut getopts::Options, short: &str, long: &str)
    requires
        declarable((short@, long@, true, true)),
    ensures
        declared(*final(options)) == declared(*old(options)).push((short@, long@, true, true)),
{
    options.optmulti(short, long, "", "");
}

/// `getopts::Options::parse` goes through the arguments by the definitions alone. It panics on a
/// definition without a name. An error is handed on in its own words.
#[verifier::external_body]
fn run_parse(options: &getopts::Options, args: &Vec<String>) -> (r: Result<getopts::Matches, String>)
    requires
        all_declarable(declared(*options)),
    ensures
        match r {
            Ok(m) => getopts_parse(declared(*options), args.deep_view()) == Ok::<
                (Seq<Seq<Option<Seq<char>>>>, Seq<Seq<char>>),
                Seq<char>,
            >((matched_values(m), matched_free(m))) && matched_defs(m) == declared(*options)
                && matched_values(m).len() == declared(*options).len(),
            Err(e) => getopts_parse(declared(*options), args.deep_view()) == Err::<
                (Seq<Seq<Option<Seq<char>>>>, Seq<Seq<char>>),
                Seq<char>,
            >(e@),
        },
{
    options.parse(args).map_err(|e| e.to_string())
}

/// The name under which a definition is found first: the long one where it has one.
pub open spec fn main_name(d: Definition) -> Seq<char> {
    if d.1.len() > 0 {
        d.1
    } else {
        d.0
    }
}

/// The first definition from `i` on with this main name.
pub open spec fn find_main(defs: Seq<Definition>, name: Seq<char>, i: int) -> int
    decreases defs.len() - i,
{
    if i < 0 || i >= defs.len() {
        defs.len() as int
    } else if main_name(defs[i]) == name {
        i
    } else {
        find_main(defs, name, i + 1)
    }
}

/// The first definition from `i` on whose short name stands beside a long one and is this name.
pub open spec fn find_alias(defs: Seq<Definition>, name: Seq<char>, i: int) -> int
    decreases defs.len() - i,
{
    if i < 0 || i >= defs.len() {
        defs.len() as int
    } else if defs[i].1.len() > 0 && defs[i].0.len() > 0 && defs[i].0 == name {
        i
    } else {
        find_alias(defs, name, i + 1)
    }
}

/// The definition that a name stands for; the number of definitions where there is none.
pub open spec fn lookup(defs: Seq<Definition>, name: Seq<char>) -> int {
    let main = find_main(defs, name, 0);
    let alias = find_alias(defs, name, 0);
    if main < defs.len() {
        main
    } else if alias < defs.len() {
        find_main(defs, main_name(defs[alias]), 0)
    } else {
        defs.len() as int
    }
}

/// The values among what was given.
pub open spec fn values_of(given: Seq<Option<Seq<char>>>) -> Seq<Seq<char>>
    decreases given.len(),
{
    if given.len() == 0 {
        Seq::empty()
    } else {
        match given.last() {
            Some(v) => values_of(given.drop_last()).push(v),
            None => values_of(given.drop_last()),
        }
    }
}

/// `getopts::Matches::opt_present` tells whether the option of this name was given. It panics on
/// a name without a definition.
#[verifier::external_body]
fn is_present(matches: &getopts::Matches, name: &str) -> (r: bool)
    requires
        all_declarable(matched_defs(*matches)),
        lookup(matched_defs(*matches), name@) < matched_defs(*matches).len(),
    ensures
        r == (matched_values(*matches)[lookup(matched_defs(*matches), name@)].len() > 0),
{
    matches.opt_present(name)
}

/// `getopts::Matches::opt_strs` gives the values of the option of this name in the order in which
/// they were given. It panics on a name without a definition.
#[verifier::external_body]
fn all_values(matches: &getopts::Matches, name: &str) -> (r: Vec<String>)
    requires
        all_declarable(matched_defs(*matches)),
        lookup(matched_defs(*matches), name@) < matched_defs(*matches).len(),
    ensures
        r.deep_view() == values_of(
            matched_values(*matches)[lookup(matched_defs(*matches), name@)],
        ),
{
    matches.opt_strs(name)
}

/// The field `free` of `getopts::Matches`.
#[verifier::external_body]
fn free_args(matches: getopts::Matches) -> (r: Vec<String>)
    ensures
        r.deep_view() == matched_free(matches),
{
    matches.free
}

/// What a command line gives of one option.
pub struct Given {
    pub short: char,
    pub long: String,
    pub present: bool,
    pub values: Vec<String>,
}

pub ghost struct GivenView {
    pub short: char,
    pub long: Seq<char>,
    pub present: bool,
    pub values: Seq<Seq<char>>,
}

impl DeepView for Given {
    type V = GivenView;

    open spec fn deep_view(&self) -> GivenView {
        GivenView {
            short: self.short,
            long: self.long@,
            present: self.present,
            values: self.values.deep_view(),
        }
    }
}

/// What a command line gives: for each option of the table what was given of it, and the
/// arguments that belong to no option.
pub struct Parsed {
    pub options: Vec<Given>,
    pub free: Vec<String>,
}

#[verifier::ext_equal]
pub ghost struct ParsedView {
    pub options: Seq<GivenView>,
    pub free: Seq<Seq<char>>,
}

impl View for Parsed {
    type V = ParsedView;

    open spec fn view(&self) -> ParsedView {
        ParsedView { options: self.options.deep_view(), free: self.free.deep_view() }
    }
}

/// The first entry from `i` on with this short name.
pub open spec fn index_of_short(options: Seq<GivenView>, short: char, i: int) -> int
    decreases options.len() - i,
{
    if i < 0 || i >= options.len() {
        options.len() as int
    } else if options[i].short == short {
        i
    } else {
        index_of_short(options, short, i + 1)
    }
}

/// The first entry from `i` on with this long name.
pub open spec fn index_of_long(options: Seq<GivenView>, long: Seq<char>, i: int) -> int
    decreases options.len() - i,
{
    if i < 0 || i >= options.len() {
        options.len() as int
    } else if options[i].long == long {
        i
    } else {
        index_of_long(options, long, i + 1)
    }
}

impl ParsedView {
    /// Whether the option with this short name was given.
    #[verifier::opaque]
    pub open spec fn present(self, short: char) -> bool {
        let i = index_of_short(self.options, short, 0);
        i < self.options.len() && self.options[i].present
    }

    /// Whether the option with this long name was given.
    #[verifier::opaque]
    pub open spec fn present_long(self, long: Seq<char>) -> bool {
        let i = index_of_long(self.options, long, 0);
        i < self.options.len() && self.options[i].present
    }

    /// The values of the option with this short name.
    #[verifier::opaque]
    pub open spec fn values(self, short: char) -> Seq<Seq<char>> {
        let i = index_of_short(self.options, short, 0);
        if i < self.options.len() {
            self.options[i].values
        } else {
            Seq::empty()
        }
    }

    /// The first value of the option with this short name.
    pub open spec fn value(self, short: char) -> Option<Seq<char>> {
        if self.values(short).len() > 0 {
            Some(self.values(short)[0])
        } else {
            None
        }
    }
}

pub open spec fn opt_text(o: Option<String>) -> Option<Seq<char>> {
    match o {
        Some(s) => Some(s@),
        None => None,
    }
}

impl Parsed {
    fn find_short(&self, short: char) -> (r: usize)
        ensures
            r == index_of_short(self@.options, short, 0),
            r <= self.options@.len(),
    {
        let mut i: usize = 0;
        while i < self.options.len() && self.options[i].short != short
            invariant
                i <= self.options@.len(),
                index_of_short(self@.options, short, i as int) == index_of_short(
                    self@.options,
                    short,
                    0,
                ),
            decreases self.options.len() - i,
        {
            i += 1;
        }
        i
    }

    /// Whether the option with this short name was given.
    pub fn present(&self, short: char) -> (r: bool)
        ensures
            r == self@.present(short),
    {
        let i = self.find_short(short);
        reveal(ParsedView::present);
        i < self.options.len() && self.options[i].present
    }

    /// Whether the option with this long name was given.
    pub fn present_long(&self, long: &str) -> (r: bool)
        ensures
            r == self@.present_long(long@),
    {
        let mut i: usize = 0;
        while i < self.options.len() && !text::same(self.options[i].long.as_str(), long)
            invariant
                i <= self.options@.len(),
                index_of_long(self@.options, long@, i as int) == index_of_long(
                    self@.options,
                    long@,
                    0,
                ),
            decreases self.options.len() - i,
        {
            i += 1;
        }
        reveal(ParsedView::present_long);
        i < self.options.len() && self.options[i].present
    }

    /// The first value of the option with this short name.
    pub fn value(&self, short: char) -> (r: Option<String>)
        ensures
            opt_text(r) == self@.value(short),
    {
        let i = self.find_short(short);
        reveal(ParsedView::values);
        if i < self.options.len() && self.options[i].values.len() > 0 {
            Some(self.options[i].values[0].clone())
        } else {
            None
        }
    }

    /// The values of the option with this short name.
    pub fn values(&self, short: char) -> (r: Vec<String>)
        ensures
            r.deep_view() == self@.values(short),
    {
        let i = self.find_short(short);
        reveal(ParsedView::values);
        if i < self.options.len() {
            copy_texts(&self.options[i].values)
        } else {
            let r: Vec<String> = Vec::new();
            assert(r.deep_view() =~= Seq::<Seq<char>>::empty());
            r
        }
    }
}

/// A second copy of a list of texts.
pub fn copy_texts(v: &Vec<String>) -> (r: Vec<String>)
    ensures
        r.deep_view() == v.deep_view(),
{
    copy_from(v, 0)
}

/// A copy of the texts from `from` on.
pub fn copy_from(v: &Vec<String>, from: usize) -> (r: Vec<String>)
    requires
        from <= v@.len(),
    ensures
        r.deep_view() == v.deep_view().skip(from as int),
{
    let mut out: Vec<String> = Vec::new();
    let mut i: usize = from;
    while i < v.len()
        invariant
            from <= i <= v@.len(),
            out.deep_view() == v.deep_view().subrange(from as int, i as int),
        decreases v.len() - i,
    {
        let ghost shown = out.deep_view();
        out.push(v[i].clone());
        assert(out.deep_view() =~= shown.push(v[i as int]@));
        assert(out.deep_view() =~= v.deep_view().subrange(from as int, i + 1));
        i += 1;
    }
    assert(v.deep_view().subrange(from as int, i as int) =~= v.deep_view().skip(from as int));
    out
}

/// The name under which a table's option is asked for.
pub open spec fn key(d: Definition) -> Seq<char> {
    if d.0.len() > 0 {
        d.0
    } else {
        d.1
    }
}

proof fn lemma_find_main(defs: Seq<Definition>, name: Seq<char>, i: int, k: int)
    requires
        0 <= i <= k < defs.len(),
        main_name(defs[k]) == name,
    ensures
        i <= find_main(defs, name, i) <= k,
    decreases k - i,
{
    if main_name(defs[i]) != name {
        lemma_find_main(defs, name, i + 1, k);
    }
}

proof fn lemma_find_alias(defs: Seq<Definition>, name: Seq<char>, i: int, k: int)
    requires
        0 <= i <= k < defs.len(),
        defs[k].1.len() > 0,
        defs[k].0.len() > 0,
        defs[k].0 == name,
    ensures
        i <= find_alias(defs, name, i) <= k,
    decreases k - i,
{
    if !(defs[i].1.len() > 0 && defs[i].0.len() > 0 && defs[i].0 == name) {
        lemma_find_alias(defs, name, i + 1, k);
    }
}

/// Every option of a table is found under its key.
proof fn lemma_key_found(defs: Seq<Definition>, k: int)
    requires
        0 <= k < defs.len(),
        declarable(defs[k]),
    ensures
        0 <= lookup(defs, key(defs[k])) < defs.len(),
{
    let d = defs[k];
    if d.0.len() == 0 || d.1.len() == 0 {
        lemma_find_main(defs, key(d), 0, k);
    } else {
        lemma_find_alias(defs, key(d), 0, k);
        let a = find_alias(defs, key(d), 0);
        lemma_find_main(defs, main_name(defs[a]), 0, a);
        find_main_lower(defs, key(d), 0);
    }
}

proof fn find_main_lower(defs: Seq<Definition>, name: Seq<char>, i: int)
    requires
        0 <= i <= defs.len(),
    ensures
        i <= find_main(defs, name, i),
    decreases defs.len() - i,
{
    if i < defs.len() && main_name(defs[i]) != name {
        find_main_lower(defs, name, i + 1);
    }
}

/// What was given of the `i`-th option of a table.
pub open spec fn given_of(
    table: Seq<OptDef>,
    found: Seq<Seq<Option<Seq<char>>>>,
    i: int,
) -> GivenView {
    let defs = definitions(table);
    let g = found[lookup(defs, key(defs[i]))];
    GivenView {
        short: table[i].short,
        long: table[i].long@,
        present: g.len() > 0,
        values: values_of(g),
    }
}

/// What a command line gives of a table of options; or the words of the error.
pub open spec fn parsed(table: Seq<OptDef>, args: Seq<Seq<char>>) -> Result<
    ParsedView,
    Seq<char>,
> {
    match getopts_parse(definitions(table), args) {
        Ok((found, free)) => Ok(
            ParsedView {
                options: Seq::new(table.len(), |i: int| given_of(table, found, i)),
                free,
            },
        ),
        Err(message) => Err(message),
    }
}

fn short_text(short: char) -> (r: String)
    ensures
        r@ == short_name(short),
{
    let mut s = String::new();
    if short != '\0' {
        s.push(short);
        assert(s@ =~= seq![short]);
    }
    s
}

/// Goes through arguments by a table of options.
pub fn parse_args(table: &Vec<OptDef>, rest: &Vec<String>) -> (r: Result<Parsed, String>)
    requires
        all_declarable(definitions(table@)),
    ensures
        match r {
            Ok(p) => parsed(table@, rest.deep_view()) == Ok::<ParsedView, Seq<char>>(p@),
            Err(e) => parsed(table@, rest.deep_view()) == Err::<ParsedView, Seq<char>>(e@),
        },
{
    let ghost defs = definitions(table@);
    let mut options = no_options();
    let mut i: usize = 0;
    while i < table.len()
        invariant
            i <= table@.len(),
            defs == definitions(table@),
            all_declarable(defs),
            declared(options) == defs.take(i as int),
        decreases table.len() - i,
    {
        let short = short_text(table[i].short);
        assert(declarable(defs[i as int]));
        match table[i].arity {
            Arity::Flag => add_flag(&mut options, short.as_str(), table[i].long),
            Arity::Value => add_value(&mut options, short.as_str(), table[i].long),
            Arity::Values => add_values(&mut options, short.as_str(), table[i].long),
        }
        assert(defs.take(i as int).push(defs[i as int]) =~= defs.take(i + 1));
        i += 1;
    }
    assert(defs.take(i as int) =~= defs);
    let matches = match run_parse(&options, rest) {
        Ok(m) => m,
        Err(e) => {
            return Err(e);
        },
    };
    let ghost found = matched_values(matches);
    let mut out: Vec<Given> = Vec::new();
    let mut j: usize = 0;
    while j < table.len()
        invariant
            j <= table@.len(),
            defs == definitions(table@),
            all_declarable(defs),
            matched_defs(matches) == defs,
            matched_values(matches) == found,
            out.deep_view() == Seq::new(j as nat, |k: int| given_of(table@, found, k)),
        decreases table.len() - j,
    {
        let d = table[j];
        let name = if d.short != '\0' {
            short_text(d.short)
        } else {
            d.long.to_owned()
        };
        assert(name@ == key(defs[j as int]));
        proof {
            assert(declarable(defs[j as int]));
            lemma_key_found(defs, j as int);
        }
        let present = is_present(&matches, name.as_str());
        let values = all_values(&matches, name.as_str());
        let ghost shown = out.deep_view();
        let given = Given { short: d.short, long: d.long.to_owned(), present, values };
        assert(given.deep_view() == given_of(table@, found, j as int));
        out.push(given);
        assert(out.deep_view() =~= shown.push(given_of(table@, found, j as int)));
        assert(out.deep_view() =~= Seq::new((j + 1) as nat, |k: int| given_of(table@, found, k)));
        j += 1;
    }
    let free = free_args(matches);
    Ok(Parsed { options: out, free })
}

/// Goes through a command line, the name of the command left out, by a table of options.
pub fn parse(table: &Vec<OptDef>, args: &Vec<String>) -> (r: Result<Parsed, String>)
    requires
        all_declarable(definitions(table@)),
        args@.len() > 0,
    ensures
        match r {
            Ok(p) => parsed(table@, args.deep_view().skip(1)) == Ok::<ParsedView, Seq<char>>(p@),
            Err(e) => parsed(table@, args.deep_view().skip(1)) == Err::<ParsedView, Seq<char>>(e@),
        },
{
    let rest = copy_from(args, 1);
    parse_args(table, &rest)
}

/// Whether no two options of a table have a name in common.
pub open spec fn no_name_twice(table: Seq<OptDef>) -> bool {
    forall|i: int, j: int|
        #![trigger table[i], table[j]]
        0 <= i < j < table.len() ==> (table[i].short != '\0' ==> table[i].short != table[j].short)
            && (table[i].long@.len() > 0 ==> table[i].long@ != table[j].long@)
}

proof fn lemma_no_main(defs: Seq<Definition>, name: Seq<char>, i: int)
    requires
        0 <= i,
        forall|j: int| i <= j < defs.len() ==> main_name(#[trigger] defs[j]) != name,
    ensures
        find_main(defs, name, i) >= defs.len(),
    decreases defs.len() - i,
{
    if i < defs.len() {
        lemma_no_main(defs, name, i + 1);
    }
}

proof fn lemma_main_at(defs: Seq<Definition>, name: Seq<char>, i: int, k: int)
    requires
        0 <= i <= k < defs.len(),
        main_name(defs[k]) == name,
        forall|j: int| i <= j < k ==> main_name(#[trigger] defs[j]) != name,
    ensures
        find_main(defs, name, i) == k,
    decreases k - i,
{
    if i < k {
        lemma_main_at(defs, name, i + 1, k);
    }
}

proof fn lemma_alias_at(defs: Seq<Definition>, name: Seq<char>, i: int, k: int)
    requires
        0 <= i <= k < defs.len(),
        defs[k].1.len() > 0,
        defs[k].0 == name,
        name.len() > 0,
        forall|j: int| i <= j < k ==> (#[trigger] defs[j]).0 != name,
    ensures
        find_alias(defs, name, i) == k,
    decreases k - i,
{
    if i < k {
        lemma_alias_at(defs, name, i + 1, k);
    }
}

proof fn lemma_own_entry(table: Seq<OptDef>, k: int)
    requires
        no_name_twice(table),
        all_declarable(definitions(table)),
        0 <= k < table.len(),
        table[k].short != '\0',
    ensures
        lookup(definitions(table), key(definitions(table)[k])) == k,
{
    let defs = definitions(table);
    let name = seq![table[k].short];
    assert(defs[k].0 == name);
    assert forall|j: int| 0 <= j < defs.len() && j != k implies (#[trigger] defs[j]).0 != name by {
        let (a, b) = if j < k {
            (table[j], table[k])
        } else {
            (table[k], table[j])
        };
        assert(a.short != '\0' ==> a.short != b.short);
        if table[j].short != '\0' {
            assert(defs[j].0 == seq![table[j].short]);
            assert(defs[j].0[0] == table[j].short);
            assert(name[0] == table[k].short);
        } else {
            assert(defs[j].0.len() == 0);
        }
    }
    assert forall|j: int| 0 <= j < defs.len() && j != k implies main_name(#[trigger] defs[j])
        != name by {
        assert(declarable(defs[j]));
    }
    assert(declarable(defs[k]));
    if defs[k].1.len() > 0 {
        lemma_no_main(defs, name, 0);
        lemma_alias_at(defs, name, 0, k);
        let long = defs[k].1;
        assert forall|j: int| 0 <= j < k implies main_name(#[trigger] defs[j]) != long by {
            assert(table[j].long@.len() > 0 ==> table[j].long@ != table[k].long@);
        }
        lemma_main_at(defs, long, 0, k);
    } else {
        lemma_main_at(defs, name, 0, k);
    }
}

proof fn lemma_short_at(options: Seq<GivenView>, short: char, i: int, k: int)
    requires
        0 <= i <= k < options.len(),
        options[k].short == short,
        forall|j: int| i <= j < k ==> (#[trigger] options[j]).short != short,
    ensures
        index_of_short(options, short, i) == k,
    decreases k - i,
{
    if i < k {
        lemma_short_at(options, short, i + 1, k);
    }
}

/// What the arguments give of an option is found under its letter: the option is present where it
/// was given at all, and its values are those that it was given, in their order, the first of which
/// counts where one is asked for. What belongs to no option stays in its order.
pub proof fn lemma_found_by_letter(table: Seq<OptDef>, args: Seq<Seq<char>>, k: int)
    requires
        no_name_twice(table),
        all_declarable(definitions(table)),
        0 <= k < table.len(),
        table[k].short != '\0',
        getopts_parse(definitions(table), args) is Ok,
    ensures
        ({
            let (found, free) = getopts_parse(definitions(table), args)->Ok_0;
            let given = found[k];
            let c = table[k].short;
            parsed(table, args) matches Ok(p) && p.free == free && (p.present(c) <==> given.len()
                > 0) && ((forall|i: int| 0 <= i < given.len() ==> (#[trigger] given[i]) is Some) ==> {
                &&& p.values(c) == Seq::new(given.len(), |i: int| given[i]->0)
                &&& p.value(c) == if given.len() > 0 {
                    given[0]
                } else {
                    None
                }
            })
        }),
{
    let (found, free) = getopts_parse(definitions(table), args)->Ok_0;
    let p = parsed(table, args)->Ok_0;
    lemma_own_entry(table, k);
    assert(p.options[k] == given_of(table, found, k));
    assert forall|j: int| 0 <= j < k implies (#[trigger] p.options[j]).short != table[k].short by {
        assert(p.options[j] == given_of(table, found, j));
        assert(table[j].short != '\0' ==> table[j].short != table[k].short);
    }
    lemma_short_at(p.options, table[k].short, 0, k);
    reveal(ParsedView::present);
    reveal(ParsedView::values);
    lemma_values_in_order(found[k]);
}

proof fn lemma_values_in_order(given: Seq<Option<Seq<char>>>)
    ensures
        (forall|i: int| 0 <= i < given.len() ==> (#[trigger] given[i]) is Some) ==> values_of(given)
            == Seq::new(given.len(), |i: int| given[i]->0),
    decreases given.len(),
{
    if forall|i: int| 0 <= i < given.len() ==> (#[trigger] given[i]) is Some {
        let all = Seq::new(given.len(), |i: int| given[i]->0);
        if given.len() > 0 {
            let init = given.drop_last();
            assert forall|i: int| 0 <= i < init.len() implies (#[trigger] init[i]) is Some by {
                assert(given[i] is Some);
            }
            lemma_values_in_order(init);
            assert(given[given.len() - 1] is Some);
            assert(values_of(given) =~= all);
        } else {
            assert(values_of(given) =~= all);
        }
    }
}

} // verus!
