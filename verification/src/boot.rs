//! The boot orchestrator's decisions.
//!
//! A boot run resolves the configuration, and either shows the usage
//! text and restarts (no image is configured) or hands a kexec command
//! the image and the quoted argument list.  The restart pause and the
//! confirmation prompts read one line; a destructive EFI change goes
//! ahead only on the literal answer `yes`.

use crate::config::Config;
use crate::kexec::Kexec;
use vstd::prelude::*;
use vstd::string::*;

verus! {

/// The `boot` command.
pub struct Boot {
    /// Do not show progress output.
    pub quiet: bool,
    /// How many times a failed fetch is retried.
    pub tries: u32,
}

/// `s` wrapped in double quotes.
pub open spec fn quoted(s: Seq<char>) -> Seq<char> {
    "\""@ + s + "\""@
}

/// The items each wrapped in double quotes, joined by single spaces.
pub open spec fn quote_join_spec(items: Seq<Seq<char>>) -> Seq<char>
    decreases items.len(),
{
    if items.len() == 0 {
        Seq::empty()
    } else if items.len() == 1 {
        quoted(items[0])
    } else {
        quote_join_spec(items.drop_last()) + " "@ + quoted(items.last())
    }
}

/// Quote and join the configured cmdline arguments; an empty list
/// yields none at all.
pub fn quote_join(args: &Vec<String>) -> (r: Option<String>)
    ensures
        args@.len() == 0 ==> r is None,
        args@.len() > 0 ==> (r matches Some(s) && s@ == quote_join_spec(args.deep_view())),
{
    let n = args.len();
    if n == 0 {
        return None;
    }
    let ghost dv = args.deep_view();
    let mut out = String::new();
    let mut i: usize = 0;
    proof {
        assert(quote_join_spec(dv.take(0)) == Seq::<char>::empty());
    }
    while i < n
        invariant
            0 <= i <= n,
            n == args@.len(),
            dv == args.deep_view(),
            dv.len() == n,
            out@ == quote_join_spec(dv.take(i as int)),
        decreases n - i,
    {
        if i > 0 {
            out.append(" ");
        }
        out.append("\"");
        out.append(args[i].as_str());
        out.append("\"");
        proof {
            assert(dv[i as int] == args@[i as int]@);
            assert(dv.take(i + 1).drop_last() =~= dv.take(i as int));
            assert(dv.take(i + 1).last() == dv[i as int]);
            if i == 0 {
                assert(out@ =~= quoted(dv[0]));
            } else {
                assert(out@ =~= quote_join_spec(dv.take(i as int)) + " "@ + quoted(dv[i as int]));
            }
        }
        i = i + 1;
    }
    proof {
        assert(dv.take(n as int) =~= dv);
    }
    Some(out)
}

/// What a boot run does once the configuration is resolved.
pub enum BootPlan {
    /// No image is configured: show the usage text, then restart.
    ShowHelp,
    /// Fetch and kexec the configured image.
    Launch(Kexec),
}

/// Decide a boot run from the resolved configuration.
pub fn plan_boot(cfg: Config, quiet: bool, tries: u32) -> (r: BootPlan)
    ensures
        cfg.image is None ==> r is ShowHelp,
        cfg.image matches Some(img) ==> (r matches BootPlan::Launch(k) && k.quiet == quiet
            && k.tries == tries && k.image == img && (cfg.cmdline@.len() == 0 ==> k.cmdline is None)
            && (cfg.cmdline@.len() > 0 ==> (k.cmdline matches Some(c) && c@ == quote_join_spec(
            cfg.cmdline.deep_view(),
        )))),
{
    match cfg.image {
        None => BootPlan::ShowHelp,
        Some(img) => {
            let cl = quote_join(&cfg.cmdline);
            BootPlan::Launch(Kexec { quiet, image: img, cmdline: cl, tries })
        },
    }
}

/// Whitespace, as the prompts trim it.
pub open spec fn is_prompt_ws(c: char) -> bool {
    c == ' ' || c == '\t' || c == '\n' || c == '\x0b' || c == '\x0c' || c == '\r'
}

/// The number of leading whitespace characters.
pub open spec fn lead_ws_chars(s: Seq<char>) -> int
    decreases s.len(),
{
    if s.len() == 0 || !is_prompt_ws(s[0]) {
        0
    } else {
        1 + lead_ws_chars(s.drop_first())
    }
}

/// The number of trailing whitespace characters.
pub open spec fn trail_ws_chars(s: Seq<char>) -> int
    decreases s.len(),
{
    if s.len() == 0 || !is_prompt_ws(s.last()) {
        0
    } else {
        1 + trail_ws_chars(s.drop_last())
    }
}

/// `s` without its leading and trailing whitespace.
pub open spec fn trimmed_chars(s: Seq<char>) -> Seq<char> {
    if lead_ws_chars(s) == s.len() {
        Seq::empty()
    } else {
        s.subrange(lead_ws_chars(s), s.len() - trail_ws_chars(s))
    }
}

proof fn lemma_lead_ws_chars_bounds(s: Seq<char>)
    ensures
        0 <= lead_ws_chars(s) <= s.len(),
        forall|j: int| 0 <= j < lead_ws_chars(s) ==> is_prompt_ws(s[j]),
        lead_ws_chars(s) < s.len() ==> !is_prompt_ws(s[lead_ws_chars(s)]),
    decreases s.len(),
{
    if s.len() == 0 || !is_prompt_ws(s[0]) {
    } else {
        lemma_lead_ws_chars_bounds(s.drop_first());
        assert forall|j: int| 0 <= j < lead_ws_chars(s) implies is_prompt_ws(s[j]) by {
            if j > 0 {
                assert(s.drop_first()[j - 1] == s[j]);
            }
        }
        if lead_ws_chars(s) < s.len() {
            assert(s.drop_first()[lead_ws_chars(s) - 1] == s[lead_ws_chars(s)]);
        }
    }
}

proof fn lemma_trail_ws_chars_bounds(s: Seq<char>)
    ensures
        0 <= trail_ws_chars(s) <= s.len(),
        forall|j: int| s.len() - trail_ws_chars(s) <= j < s.len() ==> is_prompt_ws(s[j]),
        trail_ws_chars(s) < s.len() ==> !is_prompt_ws(s[s.len() - trail_ws_chars(s) - 1]),
    decreases s.len(),
{
    if s.len() == 0 || !is_prompt_ws(s.last()) {
    } else {
        lemma_trail_ws_chars_bounds(s.drop_last());
        assert forall|j: int|
            s.len() - trail_ws_chars(s) <= j < s.len() implies is_prompt_ws(s[j]) by {
            if j < s.len() - 1 {
                assert(s.drop_last()[j] == s[j]);
            }
        }
        if trail_ws_chars(s) < s.len() {
            assert(s.drop_last()[s.len() - trail_ws_chars(s) - 1] == s[s.len() - trail_ws_chars(s)
                - 1]);
        }
    }
}

/// Characterize the trim window by what a scan found.
proof fn lemma_trim_chars_window(s: Seq<char>, a: int, b: int)
    requires
        0 <= a <= b <= s.len(),
        forall|j: int| 0 <= j < a ==> is_prompt_ws(s[j]),
        forall|j: int| b <= j < s.len() ==> is_prompt_ws(s[j]),
        a < b ==> !is_prompt_ws(s[a]) && !is_prompt_ws(s[b - 1]),
        a == b ==> a == s.len(),
    ensures
        trimmed_chars(s) == s.subrange(a, b),
{
    lemma_lead_ws_chars_bounds(s);
    lemma_trail_ws_chars_bounds(s);
    if a == b {
        assert(lead_ws_chars(s) == s.len());
        assert(trimmed_chars(s) =~= s.subrange(a, b));
    } else {
        assert(lead_ws_chars(s) == a) by {
            if lead_ws_chars(s) < a {
                assert(is_prompt_ws(s[lead_ws_chars(s)]));
            }
            if lead_ws_chars(s) > a {
                assert(is_prompt_ws(s[a]));
            }
        }
        assert(trail_ws_chars(s) == s.len() - b) by {
            if s.len() - trail_ws_chars(s) > b {
                assert(is_prompt_ws(s[s.len() - trail_ws_chars(s) - 1]));
            }
            if s.len() - trail_ws_chars(s) < b {
                assert(is_prompt_ws(s[b - 1]));
            }
        }
    }
}

/// Whether `c` is prompt whitespace.
fn prompt_ws(c: char) -> (r: bool)
    ensures
        r == is_prompt_ws(c),
{
    c == ' ' || c == '\t' || c == '\n' || c == '\x0b' || c == '\x0c' || c == '\r'
}

/// Whether a prompt answer, once trimmed of surrounding whitespace,
/// reads exactly `yes`.
pub fn answer_is_yes(line: &String) -> (r: bool)
    ensures
        r == (trimmed_chars(line@) == seq!['y', 'e', 's']),
{
    let s = line.as_str();
    let n = s.unicode_len();
    let mut a: usize = 0;
    while a < n && prompt_ws(s.get_char(a))
        invariant
            0 <= a <= n,
            n == s@.len(),
            forall|j: int| 0 <= j < a ==> is_prompt_ws(s@[j]),
        decreases n - a,
    {
        a = a + 1;
    }
    let mut b: usize = n;
    while b > a && prompt_ws(s.get_char(b - 1))
        invariant
            a <= b <= n,
            n == s@.len(),
            forall|j: int| b <= j < n ==> is_prompt_ws(s@[j]),
        decreases b,
    {
        b = b - 1;
    }
    proof {
        lemma_trim_chars_window(s@, a as int, b as int);
    }
    let ghost t = trimmed_chars(line@);
    if b - a != 3 {
        proof {
            assert(t.len() != 3);
        }
        return false;
    }
    let r = s.get_char(a) == 'y' && s.get_char(a + 1) == 'e' && s.get_char(a + 2) == 's';
    proof {
        assert(t[0] == s@[a as int] && t[1] == s@[a + 1] && t[2] == s@[a + 2]);
        if r {
            assert(t =~= seq!['y', 'e', 's']);
        }
    }
    r
}

} // verus!
