//! The command-line token classifier.
//!
//! A single left-to-right pass sorts the tokens of an argument vector into
//! the tool's own tokens, tag selectors and the pass-through command.
use vstd::prelude::*;
use crate::text::{copy_strings, has_char_prefix, split_spec, split_str, starts_with_char, views};

verus! {

/// The character that marks a tag selector.
pub const TAG_PREFIX: char = '+';

/// The three ordered token lists that classification produces.
#[derive(Debug, PartialEq)]
pub struct ParsedArgs {
    /// Tag selectors, each still carrying its prefix.
    pub tags: Vec<String>,
    /// The tool's own tokens: its name, flags and subcommand words.
    pub before_tags: Vec<String>,
    /// The external program followed by its arguments.
    pub after_tags: Vec<String>,
}

/// The three token lists as character sequences.
pub struct ParsedArgsView {
    pub tags: Seq<Seq<char>>,
    pub before_tags: Seq<Seq<char>>,
    pub after_tags: Seq<Seq<char>>,
}

impl View for ParsedArgs {
    type V = ParsedArgsView;

    open spec fn view(&self) -> ParsedArgsView {
        ParsedArgsView {
            tags: views(self.tags@),
            before_tags: views(self.before_tags@),
            after_tags: views(self.after_tags@),
        }
    }
}

/// What the pass has built after some prefix of the arguments.
pub struct ScanState {
    pub tool: Seq<Seq<char>>,
    pub tags: Seq<Seq<char>>,
    pub command: Seq<Seq<char>>,
    /// A token has gone to the command.
    pub seen_external: bool,
    /// A reserved name came before any command token.
    pub seen_reserved: bool,
    /// The separator has been consumed.
    pub escape_seen: bool,
}

/// The literal separator `--`.
pub open spec fn is_separator(t: Seq<char>) -> bool {
    t == seq!['-', '-']
}

/// Some token after the first carries the tag prefix.
pub open spec fn any_tag_after_first(args: Seq<Seq<char>>) -> bool {
    exists|i: int| 1 <= i < args.len() && starts_with_char(#[trigger] args[i], TAG_PREFIX)
}

/// A token that names a subcommand or looks like a flag.
pub open spec fn subcommand_shaped(t: Seq<char>, reserved: Seq<Seq<char>>) -> bool {
    reserved.contains(t) || starts_with_char(t, '-')
}

/// The state after the pass has examined token `t`.
pub open spec fn scan_step(
    s: ScanState,
    t: Seq<char>,
    reserved: Seq<Seq<char>>,
    any_tag: bool,
) -> ScanState {
    let seen_reserved = s.seen_reserved || (reserved.contains(t) && !s.seen_external);
    if is_separator(t) {
        ScanState { escape_seen: true, seen_reserved, ..s }
    } else if starts_with_char(t, TAG_PREFIX) && s.command.len() == 0 && !s.escape_seen {
        ScanState { tags: s.tags.push(t), seen_reserved, ..s }
    } else {
        let leading = (s.tags.len() > 0 || !any_tag) && !seen_reserved;
        let plain = !subcommand_shaped(t, reserved) || s.seen_external;
        if (leading && plain) || s.escape_seen {
            ScanState { command: s.command.push(t), seen_external: true, seen_reserved, ..s }
        } else {
            ScanState { tool: s.tool.push(t), seen_reserved, ..s }
        }
    }
}

/// The state after the first `n` tokens: the first token is always the
/// tool's own name.
pub open spec fn scan(args: Seq<Seq<char>>, reserved: Seq<Seq<char>>, n: nat) -> ScanState
    decreases n,
{
    if n == 0 {
        ScanState {
            tool: seq![],
            tags: seq![],
            command: seq![],
            seen_external: false,
            seen_reserved: false,
            escape_seen: false,
        }
    } else if n == 1 {
        ScanState {
            tool: seq![args[0]],
            tags: seq![],
            command: seq![],
            seen_external: false,
            seen_reserved: false,
            escape_seen: false,
        }
    } else {
        scan_step(
            scan(args, reserved, (n - 1) as nat),
            args[n - 1],
            reserved,
            any_tag_after_first(args),
        )
    }
}

/// The classification of `args`, falling back to `env_tags` when no tag
/// selector was found.
pub open spec fn classified(
    args: Seq<Seq<char>>,
    reserved: Seq<Seq<char>>,
    env_tags: Seq<Seq<char>>,
) -> ParsedArgsView {
    let s = scan(args, reserved, args.len());
    ParsedArgsView {
        tags: if s.tags.len() == 0 { env_tags } else { s.tags },
        before_tags: s.tool,
        after_tags: s.command,
    }
}

/// The names of the reserved subcommands.
pub open spec fn name_views(names: Seq<&String>) -> Seq<Seq<char>> {
    names.map_values(|s: &String| s@)
}

impl ParsedArgs {
    /// Three empty lists.
    pub fn initial() -> (r: ParsedArgs)
        ensures
            r@.tags.len() == 0,
            r@.before_tags.len() == 0,
            r@.after_tags.len() == 0,
    {
        ParsedArgs { tags: Vec::new(), before_tags: Vec::new(), after_tags: Vec::new() }
    }
}

fn is_separator_token(t: &str) -> (r: bool)
    ensures
        r == is_separator(t@),
{
    let n = t.unicode_len();
    if n == 2 {
        let a = t.get_char(0);
        let b = t.get_char(1);
        assert(a == '-' && b == '-' ==> t@ =~= seq!['-', '-']);
        a == '-' && b == '-'
    } else {
        false
    }
}

fn is_reserved(t: &String, names: &[&String]) -> (r: bool)
    ensures
        r == name_views(names@).contains(t@),
{
    let mut i: usize = 0;
    while i < names.len()
        invariant
            i <= names@.len(),
            forall|j: int| 0 <= j < i ==> names@[j]@ != t@,
        decreases names.len() - i,
    {
        if t.eq(names[i]) {
            assert(name_views(names@)[i as int] == t@);
            return true;
        }
        i = i + 1;
    }
    assert(!name_views(names@).contains(t@)) by {
        if name_views(names@).contains(t@) {
            let j = choose|j: int| 0 <= j < name_views(names@).len() && name_views(names@)[j] == t@;
            assert(names@[j]@ == t@);
        }
    }
    false
}

fn any_tag_present(args: &[String]) -> (r: bool)
    ensures
        r == any_tag_after_first(views(args@)),
{
    let mut i: usize = 1;
    while i < args.len()
        invariant
            1 <= i,
            forall|j: int| 1 <= j < i && j < args@.len() ==> !starts_with_char(args@[j]@, TAG_PREFIX),
        decreases args.len() - i,
    {
        if has_char_prefix(args[i].as_str(), TAG_PREFIX) {
            assert(starts_with_char(views(args@)[i as int], TAG_PREFIX));
            return true;
        }
        i = i + 1;
    }
    assert(!any_tag_after_first(views(args@))) by {
        if any_tag_after_first(views(args@)) {
            let j = choose|j: int|
                1 <= j < views(args@).len() && starts_with_char(#[trigger] views(args@)[j], TAG_PREFIX);
            assert(starts_with_char(args@[j]@, TAG_PREFIX));
        }
    }
    false
}

/// Sorts `args` into tool tokens, tags and the pass-through command.
///
/// The first token is the tool's own name. A tag selector counts only before
/// the command has started and before any separator; a reserved subcommand
/// name that comes before the command freezes tag collection, and everything
/// after a separator belongs to the command. When no tag selector is found,
/// the tags are `env_tags`.
pub fn find_tags_in_args(args: &[String], subcommand_names: &[&String], env_tags: &Vec<String>) -> (r: ParsedArgs)
    ensures
        r@ == classified(views(args@), name_views(subcommand_names@), views(env_tags@)),
{
    let ghost a = views(args@);
    let ghost reserved = name_views(subcommand_names@);
    let mut acc = ParsedArgs::initial();
    if args.len() == 0 {
        acc.tags = copy_strings(env_tags);
        assert(acc@.tags =~= views(env_tags@));
        assert(acc@.before_tags =~= seq![]);
        assert(acc@.after_tags =~= seq![]);
        return acc;
    }
    let any_tags = any_tag_present(args);
    let mut seen_external = false;
    let mut seen_reserved = false;
    let mut escape_seen = false;
    acc.before_tags.push(args[0].clone());
    assert(acc@.before_tags =~= seq![a[0]]);
    assert(acc@.tags =~= seq![]);
    assert(acc@.after_tags =~= seq![]);
    let mut i: usize = 1;
    while i < args.len()
        invariant
            1 <= i <= args@.len(),
            a == views(args@),
            reserved == name_views(subcommand_names@),
            any_tags == any_tag_after_first(a),
            ({
                let s = scan(a, reserved, i as nat);
                &&& s.tool == acc@.before_tags
                &&& s.tags == acc@.tags
                &&& s.command == acc@.after_tags
                &&& s.seen_external == seen_external
                &&& s.seen_reserved == seen_reserved
                &&& s.escape_seen == escape_seen
            }),
        decreases args.len() - i,
    {
        let t = &args[i];
        assert(a[i as int] == t@);
        let reserved_token = is_reserved(t, subcommand_names);
        if reserved_token && !seen_external {
            seen_reserved = true;
        }
        if is_separator_token(t.as_str()) {
            escape_seen = true;
        } else if has_char_prefix(t.as_str(), TAG_PREFIX) && acc.after_tags.len() == 0 && !escape_seen {
            acc.tags.push(t.clone());
        } else {
            let shaped = reserved_token || has_char_prefix(t.as_str(), '-');
            let leading = (acc.tags.len() > 0 || !any_tags) && !seen_reserved;
            let plain = !shaped || seen_external;
            if (leading && plain) || escape_seen {
                acc.after_tags.push(t.clone());
                seen_external = true;
            } else {
                acc.before_tags.push(t.clone());
            }
        }
        proof {
            assert(views(acc.tags@) =~= scan(a, reserved, (i + 1) as nat).tags);
            assert(views(acc.before_tags@) =~= scan(a, reserved, (i + 1) as nat).tool);
            assert(views(acc.after_tags@) =~= scan(a, reserved, (i + 1) as nat).command);
        }
        i = i + 1;
    }
    if acc.tags.len() == 0 {
        acc.tags = copy_strings(env_tags);
    }
    acc
}

/// A separator stands among the tokens `1..n`.
pub open spec fn separator_before(args: Seq<Seq<char>>, n: int) -> bool {
    exists|j: int| 1 <= j < n && is_separator(#[trigger] args[j])
}

/// Token `k` would open the command when no tag or reserved name is about:
/// it is no separator, and it does not look like a flag or a separator came
/// before it.
pub open spec fn opens_command(args: Seq<Seq<char>>, k: int) -> bool {
    !is_separator(args[k]) && (!starts_with_char(args[k], '-') || separator_before(args, k))
}

/// No token after the first is a tag selector or a reserved name.
pub open spec fn untagged(args: Seq<Seq<char>>, reserved: Seq<Seq<char>>) -> bool {
    forall|i: int|
        1 <= i < args.len() ==> !starts_with_char(#[trigger] args[i], TAG_PREFIX) && !reserved.contains(
            args[i],
        )
}

proof fn lemma_scan_untagged(args: Seq<Seq<char>>, reserved: Seq<Seq<char>>, n: nat)
    requires
        untagged(args, reserved),
        n <= args.len(),
    ensures
        scan(args, reserved, n).tags.len() == 0,
        !scan(args, reserved, n).seen_reserved,
        n >= 1 ==> scan(args, reserved, n).escape_seen == separator_before(args, n as int),
        n >= 1 && (forall|j: int| 1 <= j < n ==> !opens_command(args, j)) ==> {
            &&& scan(args, reserved, n).command.len() == 0
            &&& !scan(args, reserved, n).seen_external
        },
        forall|k: int|
            1 <= k < n && opens_command(args, k) && (forall|j: int|
                1 <= j < k ==> !opens_command(args, j)) ==> {
                &&& scan(args, reserved, n).command.len() > 0
                &&& scan(args, reserved, n).command[0] == args[k]
            },
    decreases n,
{
    if n >= 2 {
        let m = (n - 1) as nat;
        lemma_scan_untagged(args, reserved, m);
        let t = args[m as int];
        assert(!any_tag_after_first(args));
        assert(!starts_with_char(t, TAG_PREFIX) && !reserved.contains(t));
        assert(separator_before(args, n as int) == (separator_before(args, m as int) || is_separator(t)));
        if forall|j: int| 1 <= j < n ==> !opens_command(args, j) {
            assert(forall|j: int| 1 <= j < m ==> !opens_command(args, j));
            assert(!opens_command(args, m as int));
        }
        assert forall|k: int|
            1 <= k < n && opens_command(args, k) && (forall|j: int|
                1 <= j < k ==> !opens_command(args, j)) implies {
                &&& scan(args, reserved, n).command.len() > 0
                &&& scan(args, reserved, n).command[0] == args[k]
            } by {
            if k < m {
            } else {
                assert(forall|j: int| 1 <= j < m ==> !opens_command(args, j));
            }
        }
    }
}

/// Without tag selectors, reserved names or default tags, classification
/// finds no tags, and the first token that opens the command heads the
/// command: the first one that is no separator and does not look like a
/// flag, unless a separator came before it.
pub proof fn lemma_untagged_command_start(args: Seq<Seq<char>>, reserved: Seq<Seq<char>>, k: int)
    requires
        untagged(args, reserved),
        1 <= k < args.len(),
        opens_command(args, k),
        forall|j: int| 1 <= j < k ==> !opens_command(args, j),
    ensures
        classified(args, reserved, seq![]).tags.len() == 0,
        classified(args, reserved, seq![]).after_tags.len() > 0,
        classified(args, reserved, seq![]).after_tags[0] == args[k],
{
    lemma_scan_untagged(args, reserved, args.len());
}

/// Without tag selectors, reserved names or default tags, an argument vector
/// in which no token opens the command yields no tags and no command.
pub proof fn lemma_untagged_without_command(args: Seq<Seq<char>>, reserved: Seq<Seq<char>>)
    requires
        untagged(args, reserved),
        forall|j: int| 1 <= j < args.len() ==> !opens_command(args, j),
    ensures
        classified(args, reserved, seq![]).tags.len() == 0,
        classified(args, reserved, seq![]).after_tags.len() == 0,
{
    lemma_scan_untagged(args, reserved, args.len());
}

/// The number of separators among the tokens `1..n`.
pub open spec fn separators_in(args: Seq<Seq<char>>, n: int) -> nat
    decreases n,
{
    if n <= 1 {
        0
    } else if is_separator(args[n - 1]) {
        separators_in(args, n - 1) + 1
    } else {
        separators_in(args, n - 1)
    }
}

/// Index `f` places the elements of `part` at increasing positions of
/// `args`, each element equal to the token there.
pub open spec fn placed_in_order(part: Seq<Seq<char>>, args: Seq<Seq<char>>, f: Seq<int>) -> bool {
    &&& f.len() == part.len()
    &&& forall|k: int| 0 <= k < f.len() ==> 0 <= #[trigger] f[k] < args.len() && part[k] == args[f[k]]
    &&& forall|k: int, l: int| 0 <= k < l < f.len() ==> #[trigger] f[k] < #[trigger] f[l]
}

proof fn lemma_scan_partition(args: Seq<Seq<char>>, reserved: Seq<Seq<char>>, n: nat)
    requires
        1 <= n <= args.len(),
    ensures
        ({
            let s = scan(args, reserved, n);
            &&& s.tool.len() + s.tags.len() + s.command.len() + separators_in(args, n as int) == n
            &&& exists|f: Seq<int>| placed_in_order(s.tool, args, f) && forall|k: int| 0 <= k < f.len() ==> #[trigger] f[k] < n
            &&& exists|f: Seq<int>| placed_in_order(s.tags, args, f) && forall|k: int| 0 <= k < f.len() ==> #[trigger] f[k] < n
            &&& exists|f: Seq<int>| placed_in_order(s.command, args, f) && forall|k: int| 0 <= k < f.len() ==> #[trigger] f[k] < n
            &&& forall|k: int| 0 <= k < s.tool.len() ==> !is_separator(#[trigger] s.tool[k]) || k == 0
            &&& forall|k: int| 0 <= k < s.tags.len() ==> !is_separator(#[trigger] s.tags[k])
            &&& forall|k: int| 0 <= k < s.command.len() ==> !is_separator(#[trigger] s.command[k])
        }),
    decreases n,
{
    let s = scan(args, reserved, n);
    if n == 1 {
        let f = seq![0int];
        assert(placed_in_order(s.tool, args, f));
        assert(placed_in_order(s.tags, args, Seq::<int>::empty()));
        assert(placed_in_order(s.command, args, Seq::<int>::empty()));
    } else {
        let m = (n - 1) as nat;
        lemma_scan_partition(args, reserved, m);
        let p = scan(args, reserved, m);
        let t = args[m as int];
        let ft = choose|f: Seq<int>| placed_in_order(p.tool, args, f) && forall|k: int| 0 <= k < f.len() ==> #[trigger] f[k] < m;
        let fg = choose|f: Seq<int>| placed_in_order(p.tags, args, f) && forall|k: int| 0 <= k < f.len() ==> #[trigger] f[k] < m;
        let fc = choose|f: Seq<int>| placed_in_order(p.command, args, f) && forall|k: int| 0 <= k < f.len() ==> #[trigger] f[k] < m;
        let ft2 = ft.push(m as int);
        let fg2 = fg.push(m as int);
        let fc2 = fc.push(m as int);
        if s.tool.len() > p.tool.len() {
            assert(s.tool == p.tool.push(t));
            assert(placed_in_order(s.tool, args, ft2));
            assert(forall|k: int| 0 <= k < ft2.len() ==> #[trigger] ft2[k] < n);
        } else {
            assert(placed_in_order(s.tool, args, ft));
        }
        if s.tags.len() > p.tags.len() {
            assert(s.tags == p.tags.push(t));
            assert(placed_in_order(s.tags, args, fg2));
            assert(forall|k: int| 0 <= k < fg2.len() ==> #[trigger] fg2[k] < n);
        } else {
            assert(placed_in_order(s.tags, args, fg));
        }
        if s.command.len() > p.command.len() {
            assert(s.command == p.command.push(t));
            assert(placed_in_order(s.command, args, fc2));
            assert(forall|k: int| 0 <= k < fc2.len() ==> #[trigger] fc2[k] < n);
        } else {
            assert(placed_in_order(s.command, args, fc));
        }
    }
}

/// Classification partitions the arguments: every token but the separators
/// lands in exactly one of the three lists, each list keeps the tokens in
/// the order they had in the arguments, and no separator after the first token appears in
/// any list.
pub proof fn lemma_classification_partitions(args: Seq<Seq<char>>, reserved: Seq<Seq<char>>, env_tags: Seq<Seq<char>>)
    requires
        args.len() >= 1,
    ensures
        ({
            let s = scan(args, reserved, args.len());
            let r = classified(args, reserved, env_tags);
            &&& r.before_tags == s.tool
            &&& r.after_tags == s.command
            &&& s.tags.len() > 0 ==> r.tags == s.tags
            &&& s.tool.len() + s.tags.len() + s.command.len() + separators_in(args, args.len() as int) == args.len()
            &&& exists|f: Seq<int>| placed_in_order(s.tool, args, f)
            &&& exists|f: Seq<int>| placed_in_order(s.tags, args, f)
            &&& exists|f: Seq<int>| placed_in_order(s.command, args, f)
            &&& forall|k: int| 1 <= k < s.tool.len() ==> !is_separator(#[trigger] s.tool[k])
            &&& forall|k: int| 0 <= k < s.tags.len() ==> !is_separator(#[trigger] s.tags[k])
            &&& forall|k: int| 0 <= k < s.command.len() ==> !is_separator(#[trigger] s.command[k])
        }),
{
    lemma_scan_partition(args, reserved, args.len());
}

/// What `str::trim` returns for a string: the string without leading and
/// trailing whitespace.
pub uninterp spec fn trimmed(s: Seq<char>) -> Seq<char>;

/// Relies on `str::trim`, which strips leading and trailing Unicode
/// whitespace; the result depends on the characters alone.
#[verifier::external_body]
fn trim(s: &str) -> (r: String)
    ensures
        r@ == trimmed(s@),
{
    s.trim().to_string()
}

/// The tag token for a tag name: the name behind the tag prefix.
pub fn tag_token(name: &str) -> (r: String)
    ensures
        r@ == seq![TAG_PREFIX] + name@,
{
    let mut r = String::new();
    r.append("+");
    r.append(name);
    proof {
        reveal_strlit("+");
        assert(r@ =~= seq![TAG_PREFIX] + name@);
    }
    r
}

/// The tag tokens that a comma-separated list of tag names stands for.
pub open spec fn env_tag_tokens(value: Seq<char>) -> Seq<Seq<char>> {
    split_spec(value, seq![',']).map_values(|p: Seq<char>| seq![TAG_PREFIX] + trimmed(p))
}

/// The default tag tokens from the value of the environment setting, if it
/// is set: each comma-separated piece, trimmed, behind the tag prefix.
pub fn get_tags_from_env(value: Option<&str>) -> (r: Vec<String>)
    ensures
        value is None ==> r@.len() == 0,
        value is Some ==> views(r@) == env_tag_tokens(value->Some_0@),
{
    match value {
        None => Vec::new(),
        Some(v) => {
            let pieces = split_str(v, ",");
            proof {
                reveal_strlit(",");
                assert(","@ =~= seq![',']);
            }
            let ghost target = env_tag_tokens(v@);
            let mut r: Vec<String> = Vec::new();
            let mut i: usize = 0;
            while i < pieces.len()
                invariant
                    i <= pieces@.len(),
                    views(pieces@) == split_spec(v@, seq![',']),
                    target == env_tag_tokens(v@),
                    target.len() == pieces@.len(),
                    views(r@) == target.subrange(0, i as int),
                decreases pieces.len() - i,
            {
                let name = trim(pieces[i].as_str());
                let token = tag_token(name.as_str());
                let ghost r0 = r@;
                r.push(token);
                proof {
                    assert(r@ == r0.push(token));
                    assert(views(r@) =~= views(r0).push(token@));
                    assert(views(pieces@)[i as int] == pieces@[i as int]@);
                    assert(target[i as int] == seq![TAG_PREFIX] + trimmed(pieces@[i as int]@));
                    assert(views(r@) =~= target.subrange(0, i + 1));
                }
                i = i + 1;
            }
            proof {
                assert(target.subrange(0, i as int) =~= target);
            }
            r
        },
    }
}

/// Classifies `args`; the default tags come from `env_value`, the value of
/// the environment setting that holds them, if it is set.
pub fn parse_arguments(args: &[String], subcommand_names: &[&String], env_value: Option<&str>) -> (r: ParsedArgs)
    ensures
        env_value is None ==> r@ == classified(views(args@), name_views(subcommand_names@), seq![]),
        env_value is Some ==> r@ == classified(
            views(args@),
            name_views(subcommand_names@),
            env_tag_tokens(env_value->Some_0@),
        ),
{
    let env_tags = get_tags_from_env(env_value);
    proof {
        if env_value is None {
            assert(views(env_tags@) =~= seq![]);
        }
    }
    find_tags_in_args(args, subcommand_names, &env_tags)
}

} // verus!
