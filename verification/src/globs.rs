//! Ignore rules in gitignore syntax, matched by the `globset` crate.

use vstd::prelude::*;

use crate::text::{
    append, concat2, concat3, contains, from_chars, strip_prefix, to_chars, trim_trailing,
};

verus! {

/// The set of globs that the `globset` crate matches with.
#[verifier::external_type_specification]
#[verifier::external_body]
pub struct ExGlobSet(globset::GlobSet);

/// The globs that the `globset` crate makes a set of.
#[verifier::external_type_specification]
#[verifier::external_body]
pub struct ExGlobSetBuilder(globset::GlobSetBuilder);

/// Why `globset::GlobBuilder::build` refuses a pattern, if it does, where `/` is the only
/// separator, wildcards do not match it, and a backslash takes the special meaning off the
/// next character.
pub uninterp spec fn glob_refusal(pattern: Seq<char>) -> Option<Seq<char>>;

/// Why `globset::GlobSetBuilder::build` refuses to make a set of patterns, if it does.
pub uninterp spec fn set_refusal(patterns: Seq<Seq<char>>) -> Option<Seq<char>>;

/// Whether a pattern matches a path, where `/` is the only separator, wildcards do not match
/// it, and a backslash takes the special meaning off the next character. On systems where a
/// backslash separates too, one in a path counts as `/`.
pub uninterp spec fn glob_matches(pattern: Seq<char>, path: Seq<char>) -> bool;

/// The patterns that were added to a builder, in their order.
pub uninterp spec fn added_patterns(builder: globset::GlobSetBuilder) -> Seq<Seq<char>>;

/// The patterns in a set, in the order in which they were added.
pub uninterp spec fn set_patterns(set: globset::GlobSet) -> Seq<Seq<char>>;

/// `globset::GlobSetBuilder::new`: a builder without patterns.
#[verifier::external_body]
fn new_builder() -> (r: globset::GlobSetBuilder)
    ensures
        added_patterns(r) == Seq::<Seq<char>>::empty(),
{
    globset::GlobSetBuilder::new()
}

/// `globset::GlobBuilder::build`, with a literal separator and with backslashes that escape,
/// and `globset::GlobSetBuilder::add` with its result: adds the pattern at the end, or leaves
/// the builder as it is and gives the message with which the pattern is refused. Which
/// patterns are refused is left to a name.
#[verifier::external_body]
fn add_to_builder(builder: &mut globset::GlobSetBuilder, pattern: &str) -> (r: Option<String>)
    ensures
        crate::text::opt_view(r) == glob_refusal(pattern@),
        r is None ==> added_patterns(*final(builder)) == added_patterns(*old(builder)).push(
            pattern@,
        ),
        r is Some ==> *final(builder) == *old(builder),
{
    let mut options = globset::GlobBuilder::new(pattern);
    match options.literal_separator(true).backslash_escape(true).build() {
        Ok(glob) => {
            builder.add(glob);
            None
        },
        Err(e) => Some(e.to_string()),
    }
}

/// `globset::GlobSetBuilder::build`: the set of the patterns that were added, or the
/// message with which they are refused, which is left to a name.
#[verifier::external_body]
fn build_set(builder: &globset::GlobSetBuilder) -> (r: Result<globset::GlobSet, String>)
    ensures
        r is Err == set_refusal(added_patterns(*builder)) is Some,
        r is Err ==> r->Err_0@ == set_refusal(added_patterns(*builder))->0,
        r is Ok ==> set_patterns(r->Ok_0) == added_patterns(*builder),
{
    builder.build().map_err(|e| e.to_string())
}

/// `globset::GlobSet::matches`: the positions of the patterns that match the path, in
/// ascending order. Which paths a pattern matches is left to a name.
#[verifier::external_body]
fn set_matches(set: &globset::GlobSet, path: &str) -> (r: Vec<usize>)
    ensures
        forall|k: int|
            0 <= k < r@.len() ==> (#[trigger] r@[k]) < set_patterns(*set).len() && glob_matches(
                set_patterns(*set)[r@[k] as int],
                path@,
            ),
        forall|i: int|
            0 <= i < set_patterns(*set).len() && glob_matches(
                #[trigger] set_patterns(*set)[i],
                path@,
            ) ==> r@.contains(i as usize),
        forall|j: int, k: int| 0 <= j < k < r@.len() ==> #[trigger] r@[j] < #[trigger] r@[k],
{
    set.matches(path)
}

// --- Rules ---

/// A rule: a pattern and what it means where it matches.
#[derive(Debug, Clone)]
pub struct Rule {
    /// The rule as it was written.
    pub text: String,
    /// The pattern that whole paths are matched with.
    pub glob: String,
    /// Whether what matches is kept after all.
    pub negated: bool,
    /// Whether only directories match.
    pub only_directories: bool,
}

/// A rule, by its texts.
pub struct RuleView {
    /// The rule as it was written.
    pub text: Seq<char>,
    /// The pattern that whole paths are matched with.
    pub glob: Seq<char>,
    /// Whether what matches is kept after all.
    pub negated: bool,
    /// Whether only directories match.
    pub only_directories: bool,
}

impl View for Rule {
    type V = RuleView;

    open spec fn view(&self) -> RuleView {
        RuleView {
            text: self.text@,
            glob: self.glob@,
            negated: self.negated,
            only_directories: self.only_directories,
        }
    }
}

/// Rules, by their texts.
pub open spec fn rule_views(rules: Seq<Rule>) -> Seq<RuleView> {
    rules.map_values(|r: Rule| r@)
}

/// Whether a character has a meaning of its own in a glob.
pub open spec fn is_special(c: char) -> bool {
    c == '*' || c == '?' || c == '[' || c == ']' || c == '{' || c == '}' || c == ',' || c == '!'
        || c == '\\'
}

/// A text as a glob that matches it alone: with a backslash before each special character.
pub open spec fn escaped(s: Seq<char>) -> Seq<char>
    decreases s.len(),
{
    if s.len() == 0 {
        seq![]
    } else if is_special(s.last()) {
        escaped(s.drop_last()).push('\\').push(s.last())
    } else {
        escaped(s.drop_last()).push(s.last())
    }
}

/// The glob of a pattern in gitignore syntax, without a leading `!` or a trailing `/`. A
/// pattern without a slash, or one that starts with `**/`, matches at any depth. Any other
/// is relative to the directory `base`.
pub open spec fn rule_glob(pattern: Seq<char>, base: Seq<char>) -> Seq<char> {
    if pattern.len() == 0 {
        seq![]
    } else if !crate::text::has_part(pattern, "/"@) {
        "**/"@ + pattern
    } else if crate::text::after_prefix(pattern, "**/"@) is Some {
        pattern
    } else {
        let below = match crate::text::after_prefix(pattern, "/"@) {
            Some(rest) => rest,
            None => pattern,
        };
        escaped(crate::text::without_trailing(base, '/')) + "/"@ + below
    }
}

/// The rule that a line in gitignore syntax states, relative to the directory `base`: a
/// leading `!` negates it, a trailing `/` makes it one for directories.
pub open spec fn rule_of(text: Seq<char>, base: Seq<char>) -> RuleView {
    let negated = text.len() > 0 && text[0] == '!';
    let rest = if negated {
        text.skip(1)
    } else {
        text
    };
    let only_directories = rest.len() > 0 && rest.last() == '/';
    let pattern = if only_directories {
        rest.drop_last()
    } else {
        rest
    };
    RuleView { text, glob: rule_glob(pattern, base), negated, only_directories }
}

/// Whether a rule names its paths from the root of the file system.
pub open spec fn starts_at_root(text: Seq<char>) -> bool {
    (text.len() > 0 && text[0] == '/') || (text.len() > 1 && text[0] == '!' && text[1] == '/')
}

/// The rule that was given by itself, in the directory `dir`: one that starts with a slash
/// is relative to the root of the file system.
pub open spec fn given_rule_of(text: Seq<char>, dir: Seq<char>) -> RuleView {
    rule_of(
        text,
        if starts_at_root(text) {
            seq![]
        } else {
            dir
        },
    )
}

fn special_char(c: char) -> (r: bool)
    ensures
        r == is_special(c),
{
    c == '*' || c == '?' || c == '[' || c == ']' || c == '{' || c == '}' || c == ',' || c == '!'
        || c == '\\'
}

fn escape(s: &str) -> (r: String)
    ensures
        r@ == escaped(s@),
{
    let chars = to_chars(s);
    let mut out = String::new();
    let mut i: usize = 0;
    proof {
        assert(chars@.take(0) =~= Seq::<char>::empty());
    }
    while i < chars.len()
        invariant
            i <= chars@.len(),
            out@ == escaped(chars@.take(i as int)),
        decreases chars@.len() - i,
    {
        proof {
            assert(chars@.take(i + 1).drop_last() =~= chars@.take(i as int));
        }
        if special_char(chars[i]) {
            out.push('\\');
        }
        out.push(chars[i]);
        i = i + 1;
    }
    proof {
        assert(chars@.take(chars@.len() as int) =~= s@);
    }
    out
}

fn glob_of(pattern: &str, base: &str) -> (r: String)
    ensures
        r@ == rule_glob(pattern@, base@),
{
    let chars = to_chars(pattern);
    if chars.len() == 0 {
        String::new()
    } else if !contains(pattern, "/") {
        concat2("**/", pattern)
    } else if strip_prefix(pattern, "**/").is_some() {
        proof {
            assert(chars@.subrange(0, chars@.len() as int) =~= pattern@);
        }
        from_chars(&chars, 0, chars.len())
    } else {
        let mut glob = escape(trim_trailing(base, '/').as_str());
        append(&mut glob, "/");
        match strip_prefix(pattern, "/") {
            Some(rest) => append(&mut glob, rest.as_str()),
            None => append(&mut glob, pattern),
        }
        glob
    }
}

/// Reads a line in gitignore syntax, relative to the directory `base`.
pub fn read_rule(text: &str, base: &str) -> (r: Rule)
    ensures
        r@ == rule_of(text@, base@),
{
    let chars = to_chars(text);
    let negated = chars.len() > 0 && chars[0] == '!';
    let from: usize = if negated {
        1
    } else {
        0
    };
    let only_directories = from < chars.len() && chars[chars.len() - 1] == '/';
    let to: usize = if only_directories {
        chars.len() - 1
    } else {
        chars.len()
    };
    let pattern = from_chars(&chars, from, to);
    proof {
        let rest = if negated {
            text@.skip(1)
        } else {
            text@
        };
        assert(chars@.subrange(0, chars@.len() as int) =~= text@);
        assert(pattern@ =~= if only_directories {
            rest.drop_last()
        } else {
            rest
        });
    }
    Rule {
        text: from_chars(&chars, 0, chars.len()),
        glob: glob_of(pattern.as_str(), base),
        negated,
        only_directories,
    }
}

/// Reads a rule that was given by itself, in the directory `dir`.
pub fn read_given_rule(text: &str, dir: &str) -> (r: Rule)
    ensures
        r@ == given_rule_of(text@, dir@),
{
    let chars = to_chars(text);
    if (chars.len() > 0 && chars[0] == '/') || (chars.len() > 1 && chars[0] == '!' && chars[1]
        == '/') {
        proof {
            reveal_strlit("");
            assert(""@ =~= Seq::<char>::empty());
        }
        read_rule(text, "")
    } else {
        read_rule(text, dir)
    }
}

/// The rules that were given by themselves, in the directory `dir`.
pub open spec fn given_rules_of(given: Seq<Seq<char>>, dir: Seq<char>) -> Seq<RuleView> {
    given.map_values(|text: Seq<char>| given_rule_of(text, dir))
}

/// Reads rules that were given by themselves, in the directory `dir`.
pub fn read_given_rules(given: &Vec<String>, dir: &str) -> (r: Vec<Rule>)
    ensures
        rule_views(r@) == given_rules_of(crate::text::views(given@), dir@),
{
    let ghost wanted = given_rules_of(crate::text::views(given@), dir@);
    let mut out: Vec<Rule> = Vec::new();
    let mut i: usize = 0;
    proof {
        assert(rule_views(out@) =~= wanted.take(0));
    }
    while i < given.len()
        invariant
            i <= given@.len(),
            wanted == given_rules_of(crate::text::views(given@), dir@),
            rule_views(out@) == wanted.take(i as int),
        decreases given@.len() - i,
    {
        let ghost before = out@;
        let rule = read_given_rule(given[i].as_str(), dir);
        let ghost added = rule@;
        out.push(rule);
        proof {
            assert(added == wanted[i as int]);
            assert(rule_views(out@) =~= rule_views(before).push(added));
            assert(wanted.take(i + 1) =~= wanted.take(i as int).push(wanted[i as int]));
        }
        i = i + 1;
    }
    proof {
        assert(wanted.take(given@.len() as int) =~= wanted);
    }
    out
}

// --- What rules say ---

/// Rules in their order, and how many of the first were given by themselves: those have the
/// last word.
pub struct RuleList {
    /// The rules.
    pub rules: Seq<RuleView>,
    /// How many of the first were given by themselves.
    pub given: int,
}

/// Whether a rule speaks of a path.
pub open spec fn applies(rule: RuleView, path: Seq<char>, is_directory: bool) -> bool {
    glob_matches(rule.glob, path) && (rule.only_directories ==> is_directory)
}

/// What the last of the rules `lo..hi` that speaks of a path says: whether to ignore it.
pub open spec fn last_word(
    rules: Seq<RuleView>,
    lo: int,
    hi: int,
    path: Seq<char>,
    is_directory: bool,
) -> Option<bool>
    decreases hi - lo,
{
    if hi <= lo {
        None
    } else if applies(rules[hi - 1], path, is_directory) {
        Some(!rules[hi - 1].negated)
    } else {
        last_word(rules, lo, hi - 1, path, is_directory)
    }
}

/// What rules say of a path: the last one that speaks of it decides, where those that were
/// given by themselves go before the others.
pub open spec fn verdict(list: RuleList, path: Seq<char>, is_directory: bool) -> Option<bool> {
    match last_word(list.rules, 0, list.given, path, is_directory) {
        Some(ignored) => Some(ignored),
        None => last_word(
            list.rules,
            list.given,
            list.rules.len() as int,
            path,
            is_directory,
        ),
    }
}

/// Whether rules ignore a file: the file itself, or a directory above it. `root` is the
/// length of the path that the search began with: what lies above it does not count.
pub open spec fn ignores(list: RuleList, path: Seq<char>, root: int) -> bool {
    ||| verdict(list, path, false) == Some(true)
    ||| exists|k: int|
        root < k < path.len() && #[trigger] path[k] == '/' && verdict(list, path.take(k), true)
            == Some(true)
}

/// Whether a rule cannot be used.
pub open spec fn is_bad_rule(rule: RuleView) -> bool {
    glob_refusal(rule.glob) is Some
}

/// What is said of a rule that cannot be used.
pub open spec fn bad_rule_text(label: Seq<char>, rule: RuleView) -> Seq<char> {
    "Invalid "@ + label + " '"@ + rule.text + ("': "@ + glob_refusal(rule.glob)->0)
}

/// The globs of rules.
pub open spec fn globs_of(rules: Seq<RuleView>) -> Seq<Seq<char>> {
    rules.map_values(|r: RuleView| r.glob)
}

/// The result of making a set of rules: the first one that cannot be used is reported, with
/// `label` for what it is.
pub open spec fn is_set_of(
    r: Result<PatternSet, String>,
    list: RuleList,
    label: Seq<char>,
) -> bool {
    let rules = list.rules;
    if exists|i: int| 0 <= i < rules.len() && is_bad_rule(#[trigger] rules[i]) {
        r is Err && exists|i: int|
            0 <= i < rules.len() && is_bad_rule(#[trigger] rules[i]) && (forall|j: int|
                0 <= j < i ==> !is_bad_rule(#[trigger] rules[j])) && r->Err_0@ == bad_rule_text(
                label,
                rules[i],
            )
    } else {
        match set_refusal(globs_of(rules)) {
            Some(reason) => r is Err && r->Err_0@ == reason,
            None => r is Ok && r->Ok_0@ == list,
        }
    }
}

/// A set of rules.
pub struct PatternSet {
    set: globset::GlobSet,
    rules: Vec<Rule>,
    given: usize,
}

impl PatternSet {
    #[verifier::type_invariant]
    spec fn is_valid(self) -> bool {
        &&& set_patterns(self.set) == globs_of(rule_views(self.rules@))
        &&& self.given <= self.rules@.len()
    }

    /// The rules in the set.
    pub closed spec fn view(&self) -> RuleList {
        RuleList { rules: rule_views(self.rules@), given: self.given as int }
    }

    /// Which rules match a path.
    fn matching_rules(&self, path: &str) -> (r: Vec<bool>)
        ensures
            r@.len() == self@.rules.len(),
            forall|i: int|
                0 <= i < r@.len() ==> #[trigger] r@[i] == glob_matches(
                    self@.rules[i].glob,
                    path@,
                ),
    {
        proof {
            use_type_invariant(self);
        }
        let total: usize = self.rules.len();
        let hits = set_matches(&self.set, path);
        let ghost globs = globs_of(rule_views(self.rules@));
        let mut out: Vec<bool> = Vec::new();
        while out.len() < total
            invariant
                out@.len() <= total,
                forall|i: int| 0 <= i < out@.len() ==> !#[trigger] out@[i],
            decreases total - out@.len(),
        {
            out.push(false);
        }
        let mut k: usize = 0;
        while k < hits.len()
            invariant
                k <= hits@.len(),
                out@.len() == total,
                total == globs.len(),
                forall|j: int| 0 <= j < hits@.len() ==> (#[trigger] hits@[j]) < globs.len(),
                forall|i: int|
                    0 <= i < total ==> (#[trigger] out@[i] <==> hits@.take(k as int).contains(
                        i as usize,
                    )),
            decreases hits@.len() - k,
        {
            let at: usize = hits[k];
            let ghost before = out@;
            out.set(at, true);
            proof {
                let now = hits@.take(k + 1);
                let earlier = hits@.take(k as int);
                assert(now =~= earlier.push(at));
                assert forall|i: int| 0 <= i < total implies (#[trigger] out@[i]
                    <==> now.contains(i as usize)) by {
                    if i == at {
                        assert(now[k as int] == i as usize);
                    } else {
                        assert(out@[i] == before[i]);
                        if earlier.contains(i as usize) {
                            let j = choose|j: int| 0 <= j < earlier.len() && earlier[j] == i as usize;
                            assert(now[j] == i as usize);
                        }
                        if now.contains(i as usize) {
                            let j = choose|j: int| 0 <= j < now.len() && now[j] == i as usize;
                            assert(earlier[j] == i as usize);
                        }
                    }
                }
            }
            k = k + 1;
        }
        proof {
            assert(hits@.take(hits@.len() as int) =~= hits@);
            assert forall|i: int| 0 <= i < out@.len() implies #[trigger] out@[i] == glob_matches(
                self@.rules[i].glob,
                path@,
            ) by {
                assert(globs[i] == self@.rules[i].glob);
                if out@[i] {
                    let j = choose|j: int| 0 <= j < hits@.len() && hits@[j] == i as usize;
                    assert(hits@[j] as int == i);
                }
                if glob_matches(globs[i], path@) {
                    assert(hits@.contains(i as usize));
                }
            }
        }
        out
    }

    fn last_word_of(&self, matching: &Vec<bool>, lo: usize, hi: usize, is_directory: bool, Ghost(
        path,
    ): Ghost<Seq<char>>) -> (r: Option<bool>)
        requires
            lo <= hi <= self@.rules.len(),
            matching@.len() == self@.rules.len(),
            forall|i: int|
                0 <= i < matching@.len() ==> #[trigger] matching@[i] == glob_matches(
                    self@.rules[i].glob,
                    path,
                ),
        ensures
            r == last_word(self@.rules, lo as int, hi as int, path, is_directory),
    {
        let mut n: usize = hi;
        while n > lo
            invariant
                lo <= n <= hi <= self@.rules.len(),
                matching@.len() == self@.rules.len(),
                forall|i: int|
                    0 <= i < matching@.len() ==> #[trigger] matching@[i] == glob_matches(
                        self@.rules[i].glob,
                        path,
                    ),
                last_word(self@.rules, lo as int, hi as int, path, is_directory) == last_word(
                    self@.rules,
                    lo as int,
                    n as int,
                    path,
                    is_directory,
                ),
            decreases n - lo,
        {
            let rule = &self.rules[n - 1];
            proof {
                assert(self@.rules[n - 1] == rule@);
            }
            if matching[n - 1] && (!rule.only_directories || is_directory) {
                return Some(!rule.negated);
            }
            n = n - 1;
        }
        None
    }

    /// What the rules say of `path`: whether to ignore it, if any speaks of it.
    pub fn judge(&self, path: &str, is_directory: bool) -> (r: Option<bool>)
        ensures
            r == verdict(self@, path@, is_directory),
    {
        proof {
            use_type_invariant(self);
        }
        let matching = self.matching_rules(path);
        let total: usize = self.rules.len();
        match self.last_word_of(&matching, 0, self.given, is_directory, Ghost(path@)) {
            Some(ignored) => Some(ignored),
            None => self.last_word_of(&matching, self.given, total, is_directory, Ghost(path@)),
        }
    }

    /// Whether the rules ignore the file at `path`, or a directory above it that is longer
    /// than `root` characters.
    pub fn ignores_file(&self, path: &str, root: usize) -> (r: bool)
        ensures
            r == ignores(self@, path@, root as int),
    {
        match self.judge(path, false) {
            Some(ignored) => {
                if ignored {
                    return true;
                }
            },
            None => {},
        }
        let chars = to_chars(path);
        let mut k: usize = 0;
        while k < chars.len()
            invariant
                k <= chars@.len(),
                chars@ == path@,
                forall|j: int|
                    root < j < k && #[trigger] path@[j] == '/' ==> verdict(
                        self@,
                        path@.take(j),
                        true,
                    ) != Some(true),
            decreases chars@.len() - k,
        {
            if k > root && chars[k] == '/' {
                let above = from_chars(&chars, 0, k);
                proof {
                    assert(above@ =~= path@.take(k as int));
                }
                match self.judge(above.as_str(), true) {
                    Some(ignored) => {
                        if ignored {
                            assert(path@[k as int] == '/');
                            return true;
                        }
                    },
                    None => {},
                }
            }
            k = k + 1;
        }
        false
    }

    /// Makes a set of rules, the first `given` of which were given by themselves.
    pub fn build(rules: Vec<Rule>, given: usize, label: &str) -> (r: Result<PatternSet, String>)
        requires
            given <= rules@.len(),
        ensures
            is_set_of(
                r,
                RuleList { rules: rule_views(rules@), given: given as int },
                label@,
            ),
    {
        let ghost views = rule_views(rules@);
        let ghost globs = globs_of(views);
        let mut builder = new_builder();
        let mut i: usize = 0;
        proof {
            assert(globs.take(0) =~= Seq::<Seq<char>>::empty());
        }
        while i < rules.len()
            invariant
                i <= rules@.len(),
                views == rule_views(rules@),
                globs == globs_of(views),
                added_patterns(builder) == globs.take(i as int),
                forall|j: int| 0 <= j < i ==> !is_bad_rule(#[trigger] views[j]),
            decreases rules@.len() - i,
        {
            let rule = &rules[i];
            proof {
                assert(views[i as int] == rule@);
                assert(globs.take(i + 1) =~= globs.take(i as int).push(rule.glob@));
            }
            match add_to_builder(&mut builder, rule.glob.as_str()) {
                Some(reason) => {
                    let head = concat3("Invalid ", label, " '");
                    let tail = concat2("': ", reason.as_str());
                    proof {
                        assert(is_bad_rule(views[i as int]));
                    }
                    return Err(concat3(head.as_str(), rule.text.as_str(), tail.as_str()));
                },
                None => {},
            }
            i = i + 1;
        }
        proof {
            assert(globs.take(rules@.len() as int) =~= globs);
        }
        match build_set(&builder) {
            Ok(set) => Ok(PatternSet { set, rules, given }),
            Err(reason) => Err(reason),
        }
    }
}

// --- Laws ---

/// What lies in an ignored directory is ignored, whatever the rules say of it.
pub proof fn law_an_ignored_directory_ignores_what_is_in_it(
    list: RuleList,
    directory: Seq<char>,
    name: Seq<char>,
    root: int,
)
    requires
        root < directory.len(),
        verdict(list, directory, true) == Some(true),
    ensures
        ignores(list, directory + "/"@ + name, root),
{
    reveal_strlit("/");
    let path = directory + "/"@ + name;
    let k = directory.len() as int;
    assert(path[k] == '/');
    assert(path.take(k) =~= directory);
}

/// Where the last rule that speaks of a file keeps it, and no directory above it is ignored,
/// the file is not ignored, whatever earlier rules say.
pub proof fn law_a_later_negation_keeps_a_file(list: RuleList, path: Seq<char>, i: int, root: int)
    requires
        0 <= list.given <= i < list.rules.len(),
        list.rules[i].negated,
        applies(list.rules[i], path, false),
        forall|j: int|
            i < j < list.rules.len() ==> !applies(#[trigger] list.rules[j], path, false),
        forall|j: int| 0 <= j < list.given ==> !applies(#[trigger] list.rules[j], path, false),
        forall|k: int|
            root < k < path.len() && #[trigger] path[k] == '/' ==> verdict(
                list,
                path.take(k),
                true,
            ) != Some(true),
    ensures
        !ignores(list, path, root),
{
    lemma_silent(list.rules, 0, list.given, path, false);
    lemma_last_word_is_of_last(list.rules, list.given, list.rules.len() as int, i, path, false);
}

proof fn lemma_silent(
    rules: Seq<RuleView>,
    lo: int,
    hi: int,
    path: Seq<char>,
    is_directory: bool,
)
    requires
        0 <= lo,
        forall|j: int| lo <= j < hi ==> !applies(#[trigger] rules[j], path, is_directory),
    ensures
        last_word(rules, lo, hi, path, is_directory) is None,
    decreases hi - lo,
{
    if hi > lo {
        lemma_silent(rules, lo, hi - 1, path, is_directory);
    }
}

proof fn lemma_last_word_is_of_last(
    rules: Seq<RuleView>,
    lo: int,
    hi: int,
    i: int,
    path: Seq<char>,
    is_directory: bool,
)
    requires
        0 <= lo <= i < hi,
        applies(rules[i], path, is_directory),
        forall|j: int| i < j < hi ==> !applies(#[trigger] rules[j], path, is_directory),
    ensures
        last_word(rules, lo, hi, path, is_directory) == Some(!rules[i].negated),
    decreases hi - lo,
{
    if hi - 1 > i {
        lemma_last_word_is_of_last(rules, lo, hi - 1, i, path, is_directory);
    }
}

/// A rule that was given by itself goes before all others: where the last of them that speaks
/// of a path says one thing, that is what holds.
pub proof fn law_given_rules_go_first(
    list: RuleList,
    path: Seq<char>,
    is_directory: bool,
    i: int,
)
    requires
        0 <= i < list.given <= list.rules.len(),
        applies(list.rules[i], path, is_directory),
        forall|j: int|
            i < j < list.given ==> !applies(#[trigger] list.rules[j], path, is_directory),
    ensures
        verdict(list, path, is_directory) == Some(!list.rules[i].negated),
{
    lemma_last_word_is_of_last(list.rules, 0, list.given, i, path, is_directory);
}

/// A line that names a directory ignores everything in that directory, at any depth: where the
/// glob of the name matches the directory, and no later rule speaks of it.
pub proof fn law_a_bare_name_ignores_a_directory(
    name: Seq<char>,
    base: Seq<char>,
    list: RuleList,
    directory: Seq<char>,
    file: Seq<char>,
    root: int,
)
    requires
        name.len() > 0,
        name[0] != '!',
        !crate::text::has_part(name, "/"@),
        list.given == 0,
        list.rules == seq![rule_of(name, base)],
        glob_matches("**/"@ + name, directory),
        root < directory.len(),
    ensures
        ignores(list, directory + "/"@ + file, root),
{
    reveal_strlit("/");
    let rule = rule_of(name, base);
    if name.last() == '/' {
        assert(crate::text::has_part(name, "/"@)) by {
            let at = name.len() - 1;
            assert(name.subrange(at, at + 1) =~= "/"@);
        }
    }
    assert(applies(list.rules[0], directory, true));
    lemma_last_word_is_of_last(list.rules, 0, 1, 0, directory, true);
    law_an_ignored_directory_ignores_what_is_in_it(list, directory, file, root);
}

/// What rules say of a path is what the last of those that speak of it says: to ignore it, or
/// where the rule is negated, to keep it. Where none speaks of it, nothing is said.
pub proof fn law_the_last_rule_decides(
    list: RuleList,
    path: Seq<char>,
    is_directory: bool,
    i: int,
)
    requires
        0 <= list.given <= list.rules.len(),
        forall|j: int|
            0 <= j < list.given ==> !applies(#[trigger] list.rules[j], path, is_directory),
    ensures
        list.given <= i < list.rules.len() && applies(list.rules[i], path, is_directory) && (
        forall|j: int|
            i < j < list.rules.len() ==> !applies(#[trigger] list.rules[j], path, is_directory))
            ==> verdict(list, path, is_directory) == Some(!list.rules[i].negated),
        (forall|j: int|
            0 <= j < list.rules.len() ==> !applies(#[trigger] list.rules[j], path, is_directory))
            ==> verdict(list, path, is_directory) is None,
{
    lemma_silent(list.rules, 0, list.given, path, is_directory);
    if list.given <= i < list.rules.len() && applies(list.rules[i], path, is_directory) && (
    forall|j: int|
        i < j < list.rules.len() ==> !applies(#[trigger] list.rules[j], path, is_directory)) {
        lemma_last_word_is_of_last(
            list.rules,
            list.given,
            list.rules.len() as int,
            i,
            path,
            is_directory,
        );
    }
    if forall|j: int|
        0 <= j < list.rules.len() ==> !applies(#[trigger] list.rules[j], path, is_directory) {
        lemma_silent(list.rules, list.given, list.rules.len() as int, path, is_directory);
    }
}

/// A rule speaks of the paths that its glob matches, and one for directories of directories
/// alone.
pub proof fn law_what_a_rule_speaks_of(rule: RuleView, path: Seq<char>)
    ensures
        applies(rule, path, true) <==> glob_matches(rule.glob, path),
        applies(rule, path, false) <==> glob_matches(rule.glob, path) && !rule.only_directories,
{
}

/// A file is ignored just where the rules say so of it, or of a directory that it is in, below
/// where the search began.
pub proof fn law_what_is_ignored(list: RuleList, path: Seq<char>, root: int)
    ensures
        ignores(list, path, root) <==> verdict(list, path, false) == Some(true) || exists|k: int|
            root < k < path.len() && #[trigger] path[k] == '/' && verdict(list, path.take(k), true)
                == Some(true),
{
}

/// A name without a slash matches at any depth.
pub proof fn law_a_name_matches_at_any_depth(name: Seq<char>, base: Seq<char>)
    requires
        name.len() > 0,
        name[0] != '!',
        forall|i: int| 0 <= i < name.len() ==> #[trigger] name[i] != '/',
    ensures
        rule_of(name, base) == (RuleView {
            text: name,
            glob: "**/"@ + name,
            negated: false,
            only_directories: false,
        }),
{
    lemma_no_slash(name);
    assert(name[name.len() - 1] != '/');
}

proof fn lemma_no_slash(name: Seq<char>)
    requires
        forall|i: int| 0 <= i < name.len() ==> #[trigger] name[i] != '/',
    ensures
        !crate::text::has_part(name, "/"@),
{
    reveal_strlit("/");
    if crate::text::has_part(name, "/"@) {
        let at = choose|at: int|
            0 <= at && at + "/"@.len() <= name.len() && #[trigger] name.subrange(
                at,
                at + "/"@.len(),
            ) == "/"@;
        assert(name.subrange(at, at + "/"@.len())[0] == name[at]);
    }
}

/// A leading `!` negates a rule, and changes nothing else of it.
pub proof fn law_an_exclamation_mark_negates(text: Seq<char>, base: Seq<char>)
    requires
        text.len() > 0,
        text[0] != '!',
    ensures
        ({
            let plain = rule_of(text, base);
            let negated = rule_of(seq!['!'] + text, base);
            &&& !plain.negated
            &&& negated.negated
            &&& negated.glob == plain.glob
            &&& negated.only_directories == plain.only_directories
            &&& negated.text == seq!['!'] + text
        }),
{
    assert((seq!['!'] + text).skip(1) =~= text);
}

/// A trailing slash makes a rule one for directories, and changes nothing else of it.
pub proof fn law_a_trailing_slash_means_directories(text: Seq<char>, base: Seq<char>)
    requires
        text.len() > 0,
        text[0] != '!',
        text.last() != '/',
    ensures
        ({
            let plain = rule_of(text, base);
            let directories = rule_of(text.push('/'), base);
            &&& !plain.only_directories
            &&& directories.only_directories
            &&& directories.glob == plain.glob
            &&& directories.negated == plain.negated
        }),
{
    assert(text.push('/').drop_last() =~= text);
}

/// A pattern with a slash at its start is relative to the directory of its file, and so is one
/// with a slash in its middle, unless it starts with `**/`: that one matches at any depth.
pub proof fn law_a_slash_anchors_a_rule(pattern: Seq<char>, base: Seq<char>)
    requires
        pattern.len() > 0,
        pattern[0] != '!',
        pattern[0] != '/',
        pattern.last() != '/',
    ensures
        rule_of(seq!['/'] + pattern, base).glob == escaped(
            crate::text::without_trailing(base, '/'),
        ) + "/"@ + pattern,
        (exists|i: int| 0 <= i < pattern.len() && #[trigger] pattern[i] == '/') && (pattern.len()
            < 3 || pattern.take(3) != "**/"@) ==> rule_of(pattern, base).glob == rule_of(
            seq!['/'] + pattern,
            base,
        ).glob,
        pattern.len() >= 3 && pattern.take(3) == "**/"@ ==> rule_of(pattern, base).glob == pattern,
{
    reveal_strlit("/");
    reveal_strlit("**/");
    let rooted = seq!['/'] + pattern;
    assert(rooted.last() == pattern.last());
    assert(rooted.subrange(0, 0int + "/"@.len()) =~= "/"@);
    assert(crate::text::has_part(rooted, "/"@));
    if rooted.len() >= 3 {
        assert(rooted.take(3)[0] == '/');
    }
    assert(rooted.take(1) =~= "/"@);
    assert(rooted.skip(1) =~= pattern);
    assert(pattern.take(1)[0] == pattern[0]);
    if exists|i: int| 0 <= i < pattern.len() && #[trigger] pattern[i] == '/' {
        let i = choose|i: int| 0 <= i < pattern.len() && #[trigger] pattern[i] == '/';
        assert(pattern.subrange(i, i + "/"@.len()) =~= "/"@);
        assert(crate::text::has_part(pattern, "/"@));
    }
    if pattern.len() >= 3 && pattern.take(3) == "**/"@ {
        assert(pattern.take(3)[2] == pattern[2]);
        assert(pattern.subrange(2, 2int + "/"@.len()) =~= "/"@);
        assert(crate::text::has_part(pattern, "/"@));
    }
}

/// A rule that was given by itself is relative to the current directory, or where it starts
/// with a slash, to the root of the file system.
pub proof fn law_given_rules_are_relative_to_the_directory(text: Seq<char>, dir: Seq<char>)
    requires
        text.len() > 0,
        text[0] != '!',
    ensures
        text[0] == '/' ==> given_rule_of(text, dir) == rule_of(text, Seq::empty()),
        text[0] != '/' ==> given_rule_of(text, dir) == rule_of(text, dir),
        text[0] == '/' ==> given_rule_of(seq!['!'] + text, dir) == rule_of(
            seq!['!'] + text,
            Seq::empty(),
        ),
        text[0] != '/' ==> given_rule_of(seq!['!'] + text, dir) == rule_of(seq!['!'] + text, dir),
{
    assert((seq!['!'] + text)[1] == text[0]);
}

/// To escape a text puts a backslash before each special character and changes nothing else.
pub proof fn law_escaping_is_by_character(s: Seq<char>, c: char)
    ensures
        escaped(Seq::empty()) == Seq::<char>::empty(),
        c == '*' || c == '?' || c == '[' || c == ']' || c == '{' || c == '}' || c == ',' || c == '!'
            || c == '\\' ==> escaped(s.push(c)) == escaped(s) + seq!['\\', c],
        !(c == '*' || c == '?' || c == '[' || c == ']' || c == '{' || c == '}' || c == ',' || c
            == '!' || c == '\\') ==> escaped(s.push(c)) == escaped(s).push(c),
{
    assert(s.push(c).drop_last() =~= s);
    assert(escaped(s).push('\\').push(c) =~= escaped(s) + seq!['\\', c]);
}

/// Rules that are given by themselves are read one by one.
pub proof fn law_given_rules_are_read_one_by_one(
    given: Seq<Seq<char>>,
    dir: Seq<char>,
    rules: Seq<Rule>,
    i: int,
)
    ensures
        given_rules_of(given, dir).len() == given.len(),
        0 <= i < given.len() ==> given_rules_of(given, dir)[i] == given_rule_of(given[i], dir),
        rule_views(rules).len() == rules.len(),
        0 <= i < rules.len() ==> rule_views(rules)[i] == rules[i]@,
{
}

/// Rules make a set where each of them is a glob, and the set holds just these rules; the
/// first that is none is reported otherwise, as it was written and with the reason.
pub proof fn law_the_first_bad_rule_is_reported(
    r: Result<PatternSet, String>,
    list: RuleList,
    label: Seq<char>,
    i: int,
)
    requires
        is_set_of(r, list, label),
        0 <= i < list.rules.len(),
    ensures
        r is Ok ==> r->Ok_0@ == list && glob_refusal(list.rules[i].glob) is None,
        glob_refusal(list.rules[i].glob) is Some && (forall|j: int|
            0 <= j < i ==> glob_refusal((#[trigger] list.rules[j]).glob) is None) ==> r is Err
            && r->Err_0@ == "Invalid "@ + label + " '"@ + list.rules[i].text + "': "@
            + glob_refusal(list.rules[i].glob)->0,
        (forall|j: int|
            0 <= j < list.rules.len() ==> glob_refusal((#[trigger] list.rules[j]).glob) is None)
            && set_refusal(
            Seq::new(list.rules.len(), |j: int| list.rules[j].glob),
        ) is None ==> r is Ok,
{
    let rules = list.rules;
    assert(globs_of(rules) =~= Seq::new(rules.len(), |j: int| rules[j].glob));
    if is_bad_rule(rules[i]) && (forall|j: int|
        0 <= j < i ==> glob_refusal((#[trigger] rules[j]).glob) is None) {
        let k = choose|k: int|
            0 <= k < rules.len() && is_bad_rule(#[trigger] rules[k]) && (forall|j: int|
                0 <= j < k ==> !is_bad_rule(#[trigger] rules[j])) && r->Err_0@ == bad_rule_text(
                label,
                rules[k],
            );
        if k < i {
            assert(glob_refusal(rules[k].glob) is None);
        } else if i < k {
            assert(!is_bad_rule(rules[i]));
        }
        let reason = glob_refusal(rules[i].glob)->0;
        assert("Invalid "@ + label + " '"@ + rules[i].text + ("': "@ + reason) =~= "Invalid "@
            + label + " '"@ + rules[i].text + "': "@ + reason);
    }
}

} // verus!
