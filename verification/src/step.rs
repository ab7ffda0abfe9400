//! Step commands: continuation collapse, shell tokenization, and the plan a
//! step hands to whoever spawns the process.

use vstd::prelude::*;

use crate::runfile::Step;

verus! {

/// A backslash immediately followed by a newline collapses to one space, so
/// a multi-line command behaves as one logical line.
pub open spec fn collapse_from(s: Seq<char>, i: int) -> Seq<char>
    decreases s.len() - i,
{
    if !(0 <= i < s.len()) {
        Seq::empty()
    } else if s[i] == '\\' && i + 1 < s.len() && s[i + 1] == '\n' {
        seq![' '] + collapse_from(s, i + 2)
    } else {
        seq![s[i]] + collapse_from(s, i + 1)
    }
}

/// What `shlex` returns: the POSIX-like shell word-splitting of the string,
/// or nothing when the input cannot be split (an unclosed quote, a trailing
/// lone backslash).
pub uninterp spec fn shell_words(s: Seq<char>) -> Option<Seq<Seq<char>>>;

/// Relies on shlex::split: POSIX-like word splitting with quoting and
/// escaping honored; the result depends on the input characters alone, and
/// is None exactly when the input has erroneous quoting.
#[verifier::external_body]
fn shlex_split(s: &str) -> (r: Option<Vec<String>>)
    ensures
        match r {
            Some(words) => shell_words(s@) == Some(words.deep_view()),
            None => shell_words(s@) is None,
        },
{
    shlex::split(s)
}

/// A tokenized command: the program and its argument vector.
#[derive(Debug, PartialEq, Eq, Clone)]
pub struct CmdArgs {
    pub cmd: String,
    pub args: Vec<String>,
}

impl CmdArgs {
    /// The program is the first word, the arguments are the rest; an empty
    /// word list is no command.
    pub fn from_words(words: Vec<String>) -> (r: Option<CmdArgs>)
        ensures
            match r {
                Some(c) => words@.len() > 0 && c.cmd@ == words.deep_view()[0] && c.args.deep_view()
                    == words.deep_view().drop_first(),
                None => words@.len() == 0,
            },
    {
        let mut words = words;
        if words.len() == 0 {
            return None;
        }
        let cmd = words.remove(0);
        Some(CmdArgs { cmd, args: words })
    }

    /// Tokenize a command string: collapse line continuations, then split
    /// into shell words. Nothing (no program) when the words are erroneous
    /// or empty.
    pub fn from(value: &str) -> (r: Option<CmdArgs>)
        ensures
            match r {
                Some(c) => {
                    match shell_words(collapse_from(value@, 0)) {
                        Some(ws) => ws.len() > 0 && c.cmd@ == ws[0] && c.args.deep_view()
                            == ws.drop_first(),
                        None => false,
                    }
                },
                None => match shell_words(collapse_from(value@, 0)) {
                    Some(ws) => ws.len() == 0,
                    None => true,
                },
            },
    {
        let collapsed = collapse_continuations(value);
        match shlex_split(collapsed.as_str()) {
            Some(words) => CmdArgs::from_words(words),
            None => None,
        }
    }
}

/// Replace every backslash-newline pair with a single space.
pub fn collapse_continuations(value: &str) -> (r: String)
    ensures
        r@ == collapse_from(value@, 0),
{
    let s = value;
    let len = s.unicode_len();
    let mut out: Vec<char> = Vec::new();
    let mut i: usize = 0;
    while i < len
        invariant
            len == s@.len(),
            i <= len,
            collapse_from(s@, 0) == out@ + collapse_from(s@, i as int),
        decreases len - i,
    {
        let c = s.get_char(i);
        if c == '\\' && i + 1 < len {
            let c2 = s.get_char(i + 1);
            if c2 == '\n' {
                let ghost out0 = out@;
                out.push(' ');
                i += 2;
                proof {
                    assert(out@ + collapse_from(s@, i as int) =~= out0 + (seq![' ']
                        + collapse_from(s@, i as int)));
                }
            } else {
                let ghost out0 = out@;
                out.push(c);
                i += 1;
                proof {
                    assert(out@ + collapse_from(s@, i as int) =~= out0 + (seq![c]
                        + collapse_from(s@, i as int)));
                }
            }
        } else {
            let ghost out0 = out@;
            out.push(c);
            i += 1;
            proof {
                assert(out@ + collapse_from(s@, i as int) =~= out0 + (seq![c] + collapse_from(
                    s@,
                    i as int,
                )));
            }
        }
    }
    proof {
        assert(collapse_from(s@, 0) =~= out@);
    }
    chars_to_string(&out)
}

/// Relies on String's FromIterator over chars: collecting chars yields the
/// string of exactly those chars.
#[verifier::external_body]
fn chars_to_string(v: &Vec<char>) -> (r: String)
    ensures
        r@ == v@,
{
    v.iter().collect()
}

/// A character that may appear in a `$NAME` variable reference.
pub open spec fn word_char(c: char) -> bool {
    ('a' <= c && c <= 'z') || ('A' <= c && c <= 'Z') || ('0' <= c && c <= '9') || c == '_'
}

/// Length of the maximal run of word characters starting at `i`.
pub open spec fn word_run(s: Seq<char>, i: int) -> nat
    decreases s.len() - i,
{
    if 0 <= i < s.len() && word_char(s[i]) {
        1 + word_run(s, i + 1)
    } else {
        0
    }
}

/// The maximal word run starting at `i` ends within the string.
proof fn lemma_word_run_bound(s: Seq<char>, i: int)
    requires
        0 <= i <= s.len(),
    ensures
        i + word_run(s, i) <= s.len(),
    decreases s.len() - i,
{
    if i < s.len() && word_char(s[i]) {
        lemma_word_run_bound(s, i + 1);
    }
}

/// A run of word characters over `[start, j)` that cannot be extended at `j`
/// is the maximal run.
proof fn lemma_word_run_exact(s: Seq<char>, start: int, j: int)
    requires
        0 <= start <= j <= s.len(),
        forall|k: int| start <= k < j ==> word_char(#[trigger] s[k]),
        j == s.len() || !word_char(s[j]),
    ensures
        word_run(s, start) == j - start,
    decreases j - start,
{
    if start < j {
        lemma_word_run_exact(s, start + 1, j);
    }
}

/// The first binding of `name` in the environment snapshot, if any.
pub open spec fn env_lookup(env: Seq<(Seq<char>, Seq<char>)>, name: Seq<char>) -> Option<
    Seq<char>,
>
    decreases env.len(),
{
    if env.len() == 0 {
        None
    } else if env[0].0 == name {
        Some(env[0].1)
    } else {
        env_lookup(env.drop_first(), name)
    }
}

/// Variable substitution from position `i` on: a `$` followed by a maximal
/// nonempty run of word characters is a reference, replaced by the first
/// matching binding of the snapshot; an unbound reference and a bare `$`
/// stay as written. Identifying references as complete runs keeps a shorter
/// bound name from matching inside a longer reference.
pub open spec fn subst_from(s: Seq<char>, env: Seq<(Seq<char>, Seq<char>)>, i: int) -> Seq<char>
    decreases s.len() - i,
    via subst_from_decreases
{
    if !(0 <= i < s.len()) {
        Seq::empty()
    } else if s[i] == '$' && word_run(s, i + 1) > 0 {
        let next = i + 1 + word_run(s, i + 1);
        let name = s.subrange(i + 1, next);
        (match env_lookup(env, name) {
            Some(v) => v,
            None => seq!['$'] + name,
        }) + subst_from(s, env, next)
    } else {
        seq![s[i]] + subst_from(s, env, i + 1)
    }
}

#[via_fn]
proof fn subst_from_decreases(s: Seq<char>, env: Seq<(Seq<char>, Seq<char>)>, i: int) {
    if 0 <= i < s.len() && s[i] == '$' && word_run(s, i + 1) > 0 {
        lemma_word_run_bound(s, i + 1);
    }
}

/// The whole command with every `$NAME` reference substituted.
pub open spec fn subst_of(s: Seq<char>, env: Seq<(Seq<char>, Seq<char>)>) -> Seq<char> {
    subst_from(s, env, 0)
}

fn is_word_char(c: char) -> (r: bool)
    ensures
        r == word_char(c),
{
    ('a' <= c && c <= 'z') || ('A' <= c && c <= 'Z') || ('0' <= c && c <= '9') || c == '_'
}

/// First binding of `name` in the snapshot, if any.
fn lookup_env<'a>(env: &'a Vec<(String, String)>, name: &String) -> (r: Option<&'a String>)
    ensures
        match r {
            Some(v) => env_lookup(env.deep_view(), name@) == Some(v@),
            None => env_lookup(env.deep_view(), name@) is None,
        },
{
    let ghost envv = env.deep_view();
    proof {
        assert(envv.skip(0) =~= envv);
    }
    let mut k: usize = 0;
    while k < env.len()
        invariant
            k <= env@.len(),
            envv == env.deep_view(),
            envv.len() == env@.len(),
            forall|m: int| 0 <= m < envv.len() ==> #[trigger] envv[m] == (env@[m].0@, env@[m].1@),
            env_lookup(envv, name@) == env_lookup(envv.skip(k as int), name@),
        decreases env@.len() - k,
    {
        let pair = &env[k];
        let ghost rest = envv.skip(k as int);
        proof {
            assert(rest.len() > 0);
            assert(rest[0] == envv[k as int]);
            assert(rest.drop_first() =~= envv.skip(k as int + 1));
        }
        if pair.0 == *name {
            proof {
                assert(env_lookup(rest, name@) == Some(envv[k as int].1));
            }
            return Some(&pair.1);
        }
        proof {
            assert(envv[k as int].0 != name@);
            assert(env_lookup(rest, name@) == env_lookup(rest.drop_first(), name@));
        }
        k += 1;
    }
    proof {
        assert(envv.skip(k as int).len() == 0);
    }
    None
}

/// Substitute every `$NAME` variable reference in the command from the
/// given environment snapshot. A reference is a maximal run of word
/// characters, so a shorter bound name never matches inside a longer one.
/// Unbound references and bare dollar signs stay as written.
pub fn substitute(command: &str, env: Vec<(String, String)>) -> (r: String)
    ensures
        r@ == subst_of(command@, env.deep_view()),
{
    let ghost envv = env.deep_view();
    let s = command;
    let len = s.unicode_len();
    let mut out: Vec<char> = Vec::new();
    let mut i: usize = 0;
    while i < len
        invariant
            len == s@.len(),
            i <= len,
            envv == env.deep_view(),
            subst_of(s@, envv) == out@ + subst_from(s@, envv, i as int),
        decreases len - i,
    {
        let c = s.get_char(i);
        if c == '$' {
            // Scan the maximal run of word characters after the dollar sign.
            let mut j = i + 1;
            while j < len && is_word_char(s.get_char(j))
                invariant
                    len == s@.len(),
                    i + 1 <= j <= len,
                    forall|k: int| i as int + 1 <= k < j ==> word_char(#[trigger] s@[k]),
                decreases len - j,
            {
                j += 1;
            }
            proof {
                lemma_word_run_exact(s@, i as int + 1, j as int);
            }
            if j == i + 1 {
                // No name follows: the dollar sign stays as written.
                let ghost out0 = out@;
                out.push(c);
                i += 1;
                proof {
                    assert(out@ + subst_from(s@, envv, i as int) =~= out0 + (seq![c]
                        + subst_from(s@, envv, i as int)));
                }
            } else {
                let ghost nm = s@.subrange(i as int + 1, j as int);
                let mut name: Vec<char> = Vec::new();
                let mut k = i + 1;
                while k < j
                    invariant
                        len == s@.len(),
                        i + 1 <= k <= j <= len,
                        name@ == s@.subrange(i as int + 1, k as int),
                    decreases j - k,
                {
                    name.push(s.get_char(k));
                    k += 1;
                    proof {
                        assert(name@ =~= s@.subrange(i as int + 1, k as int));
                    }
                }
                let name_s = chars_to_string(&name);
                let ghost out0 = out@;
                match lookup_env(&env, &name_s) {
                    Some(v) => {
                        let vs = v.as_str();
                        let vlen = vs.unicode_len();
                        proof {
                            assert(out@ =~= out0 + vs@.subrange(0, 0));
                        }
                        let mut ci: usize = 0;
                        while ci < vlen
                            invariant
                                vlen == vs@.len(),
                                ci <= vlen,
                                out@ == out0 + vs@.subrange(0, ci as int),
                            decreases vlen - ci,
                        {
                            out.push(vs.get_char(ci));
                            ci += 1;
                            proof {
                                assert(out@ =~= out0 + vs@.subrange(0, ci as int));
                            }
                        }
                        proof {
                            assert(vs@.subrange(0, vlen as int) =~= vs@);
                            assert(env_lookup(envv, nm) == Some(vs@));
                        }
                    },
                    None => {
                        out.push('$');
                        let mut k2: usize = 0;
                        proof {
                            assert(out@ =~= out0 + (seq!['$'] + nm.subrange(0, 0)));
                        }
                        while k2 < name.len()
                            invariant
                                name@ == nm,
                                nm.len() == name@.len(),
                                k2 <= name@.len(),
                                out@ == out0 + (seq!['$'] + nm.subrange(0, k2 as int)),
                            decreases name@.len() - k2,
                        {
                            out.push(name[k2]);
                            k2 += 1;
                            proof {
                                assert(out@ =~= out0 + (seq!['$'] + nm.subrange(0, k2 as int)));
                            }
                        }
                        proof {
                            assert(nm.subrange(0, nm.len() as int) =~= nm);
                            assert(env_lookup(envv, nm) is None);
                        }
                    },
                }
                proof {
                    // The scanned run is the reference the spec replaces.
                    assert(word_run(s@, i as int + 1) == j - (i + 1));
                    assert(i as int + 1 + word_run(s@, i as int + 1) == j as int);
                    let chunk = match env_lookup(envv, nm) {
                        Some(v) => v,
                        None => seq!['$'] + nm,
                    };
                    assert(subst_from(s@, envv, i as int) == chunk + subst_from(
                        s@,
                        envv,
                        j as int,
                    ));
                    assert(out@ == out0 + chunk);
                    assert(out@ + subst_from(s@, envv, j as int) =~= out0 + (chunk + subst_from(
                        s@,
                        envv,
                        j as int,
                    )));
                }
                i = j;
            }
        } else {
            let ghost out0 = out@;
            out.push(c);
            i += 1;
            proof {
                assert(out@ + subst_from(s@, envv, i as int) =~= out0 + (seq![c] + subst_from(
                    s@,
                    envv,
                    i as int,
                )));
            }
        }
    }
    proof {
        assert(subst_from(s@, envv, i as int) =~= Seq::empty());
        assert(out@ =~= out@ + subst_from(s@, envv, i as int));
    }
    chars_to_string(&out)
}

/// What a step asks of the process layer: the tokenized command, whether
/// the child is left running, and the minimum wait after the spawn.
pub struct StepPlan {
    pub command: CmdArgs,
    pub persistent: bool,
    pub startup_delay: u64,
}

impl Step {
    /// The executable plan of this step. Nothing when the command string
    /// tokenizes to no program.
    pub fn plan(&self) -> (r: Option<StepPlan>)
        ensures
            match r {
                Some(p) => {
                    &&& p.persistent == self.persistent
                    &&& p.startup_delay == self.startup_delay
                    &&& match shell_words(collapse_from(self.command@, 0)) {
                        Some(ws) => ws.len() > 0 && p.command.cmd@ == ws[0]
                            && p.command.args.deep_view() == ws.drop_first(),
                        None => false,
                    }
                },
                None => match shell_words(collapse_from(self.command@, 0)) {
                    Some(ws) => ws.len() == 0,
                    None => true,
                },
            },
    {
        match CmdArgs::from(self.command.as_str()) {
            Some(command) => Some(
                StepPlan { command, persistent: self.persistent, startup_delay: self.startup_delay },
            ),
            None => None,
        }
    }
}

} // verus!
