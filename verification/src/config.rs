//! The boot configuration and its resolution.
//!
//! A configuration holds the image to boot, the arguments for the
//! staged kernel's cmdline, and the systemd network unit files to
//! write.  It is built by walking the cmdline token stream: `img`
//! directives set the image (last one wins), `arg` directives append,
//! and `net` directives fill the network files.  A `net` key has the
//! shape `wyrcan.net.KIND.FILE.SECTION.KEY` or, without the KIND,
//! `wyrcan.net.FILE.SECTION.KEY` (the prefix `wyr.` serves as well):
//! KIND is `link`, `netdev` or `network` and falls back to `network`;
//! FILE is letters, digits, `-` and `_`; SECTION and KEY are letters
//! and digits.  Repeated `net` directives for one slot overwrite it.

use crate::cmdline::Args;
use crate::cmdline::tokens;
use vstd::prelude::*;
use vstd::string::*;
use vstd::utf8::is_ascii_chars;

verus! {

/// The entries of one section, as key/value pairs.
pub type PairsV = Seq<(Seq<char>, Seq<char>)>;

/// The sections of one network unit file.
pub type SectionsV = Seq<(Seq<char>, PairsV)>;

/// The network unit files, by name.
pub type FilesV = Seq<(Seq<char>, SectionsV)>;

/// One key/value entry of a network unit file section.
pub struct NetPair {
    pub key: String,
    pub value: String,
}

/// One named section of a network unit file.
pub struct NetSection {
    pub name: String,
    pub entries: Vec<NetPair>,
}

/// One network unit file.
pub struct NetFile {
    pub name: String,
    pub sections: Vec<NetSection>,
}

pub open spec fn pairs_view(s: Seq<NetPair>) -> PairsV {
    Seq::new(s.len(), |i: int| (s[i].key@, s[i].value@))
}

pub open spec fn sections_view(s: Seq<NetSection>) -> SectionsV {
    Seq::new(s.len(), |i: int| (s[i].name@, pairs_view(s[i].entries@)))
}

pub open spec fn files_view(s: Seq<NetFile>) -> FilesV {
    Seq::new(s.len(), |i: int| (s[i].name@, sections_view(s[i].sections@)))
}

/// Set `k` to `v` among the pairs: the first pair named `k` is
/// replaced, a missing one is appended.
pub open spec fn pairs_insert(s: PairsV, k: Seq<char>, v: Seq<char>) -> PairsV
    decreases s.len(),
{
    if s.len() == 0 {
        seq![(k, v)]
    } else if s[0].0 == k {
        seq![(k, v)] + s.drop_first()
    } else {
        seq![s[0]] + pairs_insert(s.drop_first(), k, v)
    }
}

/// Set `k` to `v` inside the section `sect`.
pub open spec fn sections_insert(s: SectionsV, sect: Seq<char>, k: Seq<char>, v: Seq<char>) -> SectionsV
    decreases s.len(),
{
    if s.len() == 0 {
        seq![(sect, pairs_insert(Seq::empty(), k, v))]
    } else if s[0].0 == sect {
        seq![(sect, pairs_insert(s[0].1, k, v))] + s.drop_first()
    } else {
        seq![s[0]] + sections_insert(s.drop_first(), sect, k, v)
    }
}

/// Set `k` to `v` inside section `sect` of the file `f`.
pub open spec fn files_insert(
    s: FilesV,
    f: Seq<char>,
    sect: Seq<char>,
    k: Seq<char>,
    v: Seq<char>,
) -> FilesV
    decreases s.len(),
{
    if s.len() == 0 {
        seq![(f, sections_insert(Seq::empty(), sect, k, v))]
    } else if s[0].0 == f {
        seq![(f, sections_insert(s[0].1, sect, k, v))] + s.drop_first()
    } else {
        seq![s[0]] + files_insert(s.drop_first(), f, sect, k, v)
    }
}

/// The index of the first `.` of `s`, or `s.len()` when there is none.
pub open spec fn first_dot(s: Seq<char>) -> int
    decreases s.len(),
{
    if s.len() == 0 {
        0
    } else if s[0] == '.' {
        0
    } else {
        1 + first_dot(s.drop_first())
    }
}

pub proof fn lemma_first_dot_bounds(s: Seq<char>)
    ensures
        0 <= first_dot(s) <= s.len(),
        forall|j: int| 0 <= j < first_dot(s) ==> s[j] != '.',
        first_dot(s) < s.len() ==> s[first_dot(s)] == '.',
    decreases s.len(),
{
    if s.len() == 0 || s[0] == '.' {
    } else {
        lemma_first_dot_bounds(s.drop_first());
        assert forall|j: int| 0 <= j < first_dot(s) implies s[j] != '.' by {
            if j > 0 {
                assert(s.drop_first()[j - 1] == s[j]);
            }
        }
        if first_dot(s) < s.len() {
            assert(s.drop_first()[first_dot(s) - 1] == s[first_dot(s)]);
        }
    }
}

/// `s` split on every `.`, empty pieces kept.
pub open spec fn dot_split(s: Seq<char>) -> Seq<Seq<char>>
    decreases s.len(),
    via dot_split_decreases
{
    let d = first_dot(s);
    if d >= s.len() {
        seq![s]
    } else {
        seq![s.take(d)] + dot_split(s.skip(d + 1))
    }
}

#[via_fn]
proof fn dot_split_decreases(s: Seq<char>) {
    lemma_first_dot_bounds(s);
}

/// A letter or a digit.
pub open spec fn is_alnum(c: char) -> bool {
    ('a' <= c <= 'z') || ('A' <= c <= 'Z') || ('0' <= c <= '9')
}

/// A character a file segment may hold.
pub open spec fn is_word_char(c: char) -> bool {
    is_alnum(c) || c == '-' || c == '_'
}

/// A non-empty segment of file-name characters.
pub open spec fn seg_word(s: Seq<char>) -> bool {
    s.len() > 0 && forall|j: int| 0 <= j < s.len() ==> is_word_char(s[j])
}

/// A non-empty segment of letters and digits.
pub open spec fn seg_alnum(s: Seq<char>) -> bool {
    s.len() > 0 && forall|j: int| 0 <= j < s.len() ==> is_alnum(s[j])
}

/// Parse a `net` directive key into its kind, file, section and entry
/// name.  A missing kind segment means kind `network`.
pub open spec fn net_key_of(k: Seq<char>) -> Option<(Seq<char>, Seq<char>, Seq<char>, Seq<char>)> {
    if !is_ascii_chars(k) {
        None
    } else {
        let segs = dot_split(k);
        if segs.len() == 5 && (segs[0] == "wyrcan"@ || segs[0] == "wyr"@) && segs[1] == "net"@
            && seg_word(segs[2]) && seg_alnum(segs[3]) && seg_alnum(segs[4]) {
            Some(("network"@, segs[2], segs[3], segs[4]))
        } else if segs.len() == 6 && (segs[0] == "wyrcan"@ || segs[0] == "wyr"@) && segs[1]
            == "net"@ && (segs[2] == "link"@ || segs[2] == "netdev"@ || segs[2] == "network"@)
            && seg_word(segs[3]) && seg_alnum(segs[4]) && seg_alnum(segs[5]) {
            Some((segs[2], segs[3], segs[4], segs[5]))
        } else {
            None
        }
    }
}

/// The boot configuration.
pub struct Config {
    /// The network unit files to write under `/etc/systemd/network/`.
    pub network: Vec<NetFile>,
    /// Arguments appended to the staged kernel's cmdline.
    pub cmdline: Vec<String>,
    /// The container image to boot.
    pub image: Option<String>,
}

impl Default for Config {
    /// The empty configuration: no image, no arguments, no files.
    fn default() -> (r: Config)
        ensures
            r.image is None,
            r.cmdline@.len() == 0,
            r.network@.len() == 0,
    {
        Config { network: Vec::new(), cmdline: Vec::new(), image: None }
    }
}

/// The model of a configuration in the making: the image, the
/// argument list and the network files.
pub type CfgV = (Option<Seq<char>>, Seq<Seq<char>>, FilesV);

/// What one token does to a configuration.
pub open spec fn cfg_step(st: CfgV, t: (Option<Seq<char>>, Seq<char>)) -> CfgV {
    match t.0 {
        Some(k) => {
            if k == "wyrcan.img"@ || k == "wyr.img"@ {
                (Some(t.1), st.1, st.2)
            } else if k == "wyrcan.arg"@ || k == "wyr.arg"@ {
                (st.0, st.1.push(t.1), st.2)
            } else {
                match net_key_of(k) {
                    Some(parts) => (
                        st.0,
                        st.1,
                        files_insert(st.2, parts.1 + seq!['.'] + parts.0, parts.2, parts.3, t.1),
                    ),
                    None => st,
                }
            }
        },
        None => st,
    }
}

/// A configuration folded over a token stream.
pub open spec fn cfg_fold(st: CfgV, toks: Seq<(Option<Seq<char>>, Seq<char>)>) -> CfgV
    decreases toks.len(),
{
    if toks.len() == 0 {
        st
    } else {
        cfg_fold(cfg_step(st, toks[0]), toks.drop_first())
    }
}

/// The configuration that a token stream describes.
pub open spec fn config_of(toks: Seq<(Option<Seq<char>>, Seq<char>)>) -> CfgV {
    cfg_fold((None, Seq::empty(), Seq::empty()), toks)
}

pub open spec fn image_view(o: Option<String>) -> Option<Seq<char>> {
    match o {
        Some(s) => Some(s@),
        None => None,
    }
}

impl Config {
    /// Walk the cmdline tokens and build the configuration they
    /// describe.
    pub fn from_args(args: &mut Args<'_>) -> (cfg: Config)
        requires
            old(args).wf(),
        ensures
            image_view(cfg.image) == config_of(tokens(old(args)@)).0,
            cfg.cmdline.deep_view() == config_of(tokens(old(args)@)).1,
            files_view(cfg.network@) == config_of(tokens(old(args)@)).2,
    {
        let img_key_a = "wyrcan.img".to_owned();
        let img_key_b = "wyr.img".to_owned();
        let arg_key_a = "wyrcan.arg".to_owned();
        let arg_key_b = "wyr.arg".to_owned();
        let mut image: Option<String> = None;
        let mut cmdline: Vec<String> = Vec::new();
        let mut network: Vec<NetFile> = Vec::new();
        proof {
            assert(cmdline.deep_view() =~= Seq::<Seq<char>>::empty());
            assert(files_view(network@) =~= Seq::<(Seq<char>, SectionsV)>::empty());
        }
        loop
            invariant
                args.wf(),
                img_key_a@ == "wyrcan.img"@,
                img_key_b@ == "wyr.img"@,
                arg_key_a@ == "wyrcan.arg"@,
                arg_key_b@ == "wyr.arg"@,
                config_of(tokens(old(args)@)) == cfg_fold(
                    (image_view(image), cmdline.deep_view(), files_view(network@)),
                    tokens(args@),
                ),
            decreases tokens(args@).len(),
        {
            let ghost st: CfgV = (image_view(image), cmdline.deep_view(), files_view(network@));
            let ghost toks = tokens(args@);
            match args.next() {
                None => {
                    return Config { network, cmdline, image };
                },
                Some((key, value)) => {
                    proof {
                        assert(cfg_fold(st, toks) == cfg_fold(cfg_step(st, toks[0]), tokens(args@)));
                    }
                    match key {
                        Some(k) => {
                            if k == img_key_a || k == img_key_b {
                                image = Some(value);
                                proof {
                                    assert(cfg_step(st, toks[0]) == (
                                        image_view(image),
                                        cmdline.deep_view(),
                                        files_view(network@),
                                    ));
                                }
                            } else if k == arg_key_a || k == arg_key_b {
                                let ghost before = cmdline.deep_view();
                                cmdline.push(value);
                                proof {
                                    assert(cmdline.deep_view() =~= before.push(toks[0].1));
                                    assert(cfg_step(st, toks[0]) == (
                                        image_view(image),
                                        cmdline.deep_view(),
                                        files_view(network@),
                                    ));
                                }
                            } else {
                                match parse_net_key(&k) {
                                    Some(nk) => {
                                        let ghost kind_v = nk.kind@;
                                        let ghost file_v = nk.file@;
                                        let mut fname = nk.file;
                                        fname.append(".");
                                        fname.append(nk.kind.as_str());
                                        proof {
                                            reveal_strlit(".");
                                            assert("."@ =~= seq!['.']);
                                            assert(fname@ == file_v + seq!['.'] + kind_v);
                                        }
                                        put_file(&mut network, fname, nk.sect, nk.name, value);
                                        proof {
                                            assert(cfg_step(st, toks[0]) == (
                                                image_view(image),
                                                cmdline.deep_view(),
                                                files_view(network@),
                                            ));
                                        }
                                    },
                                    None => {
                                        proof {
                                            assert(cfg_step(st, toks[0]) == st);
                                        }
                                    },
                                }
                            }
                        },
                        None => {
                            proof {
                                assert(cfg_step(st, toks[0]) == st);
                            }
                        },
                    }
                },
            }
        }
    }

    /// Resolve a boot attempt: the cmdline configuration wins when it
    /// names an image; otherwise the record read back from NVRAM is
    /// used whole, and failing both the configuration is empty.
    pub fn resolve(cmdline_cfg: Config, nvram: Option<Config>) -> (r: Config)
        ensures
            cmdline_cfg.image is Some ==> r == cmdline_cfg,
            cmdline_cfg.image is None && nvram is Some ==> (nvram matches Some(c) && r == c),
            cmdline_cfg.image is None && nvram is None ==> r.image is None && r.cmdline@.len() == 0
                && r.network@.len() == 0,
    {
        if cmdline_cfg.image.is_some() {
            cmdline_cfg
        } else {
            match nvram {
                Some(c) => c,
                None => Config::default(),
            }
        }
    }
}

/// A parsed `net` directive key.
pub struct NetKey {
    pub kind: String,
    pub file: String,
    pub sect: String,
    pub name: String,
}

proof fn lemma_first_dot_at(t: Seq<char>, j: int)
    requires
        0 <= j < t.len(),
        t[j] == '.',
        forall|l: int| 0 <= l < j ==> t[l] != '.',
    ensures
        first_dot(t) == j,
    decreases j,
{
    if j > 0 {
        assert forall|l: int| 0 <= l < j - 1 implies t.drop_first()[l] != '.' by {
            assert(t.drop_first()[l] == t[l + 1]);
        }
        assert(t.drop_first()[j - 1] == t[j]);
        lemma_first_dot_at(t.drop_first(), j - 1);
    }
}

proof fn lemma_first_dot_none(t: Seq<char>)
    requires
        forall|l: int| 0 <= l < t.len() ==> t[l] != '.',
    ensures
        first_dot(t) == t.len(),
    decreases t.len(),
{
    if t.len() > 0 {
        assert forall|l: int| 0 <= l < t.drop_first().len() implies t.drop_first()[l] != '.' by {
            assert(t.drop_first()[l] == t[l + 1]);
        }
        lemma_first_dot_none(t.drop_first());
    }
}

/// Split an ASCII string on every `.`.
fn split_dots(s: &str) -> (r: Vec<String>)
    requires
        is_ascii(s),
    ensures
        r.deep_view() == dot_split(s@),
{
    let n = s.unicode_len();
    let mut segs: Vec<String> = Vec::new();
    let mut start: usize = 0;
    let mut i: usize = 0;
    proof {
        assert(s@.skip(0) =~= s@);
        assert(segs.deep_view() =~= Seq::<Seq<char>>::empty());
    }
    while i < n
        invariant
            is_ascii(s),
            n == s@.len(),
            0 <= start <= i <= n,
            forall|l: int| start <= l < i ==> s@[l] != '.',
            dot_split(s@) == segs.deep_view() + dot_split(s@.skip(start as int)),
        decreases n - i,
    {
        if s.get_char(i) == '.' {
            let piece = s.substring_ascii(start, i).to_owned();
            let ghost before = segs.deep_view();
            segs.push(piece);
            proof {
                let t = s@.skip(start as int);
                assert forall|l: int| 0 <= l < i - start implies t[l] != '.' by {
                    assert(t[l] == s@[start + l]);
                }
                assert(t[i - start] == s@[i as int]);
                lemma_first_dot_at(t, i - start);
                assert(t.take(i - start) =~= s@.subrange(start as int, i as int));
                assert(t.skip(i - start + 1) =~= s@.skip(i + 1));
                assert(dot_split(t) == seq![s@.subrange(start as int, i as int)] + dot_split(
                    s@.skip(i + 1),
                ));
                assert(segs.deep_view() =~= before.push(s@.subrange(start as int, i as int)));
                assert(segs.deep_view() + dot_split(s@.skip(i + 1)) =~= before + dot_split(
                    s@.skip(start as int),
                ));
            }
            start = i + 1;
        }
        i = i + 1;
    }
    let piece = s.substring_ascii(start, n).to_owned();
    let ghost before = segs.deep_view();
    segs.push(piece);
    proof {
        let t = s@.skip(start as int);
        assert forall|l: int| 0 <= l < t.len() implies t[l] != '.' by {
            assert(t[l] == s@[start + l]);
        }
        lemma_first_dot_none(t);
        assert(t =~= s@.subrange(start as int, n as int));
        assert(dot_split(t) == seq![t]);
        assert(segs.deep_view() =~= before.push(t));
        assert(segs.deep_view() =~= dot_split(s@));
    }
    segs
}

/// Whether every character of `s` may stand in a file segment.
fn check_word(s: &String) -> (r: bool)
    ensures
        r == seg_word(s@),
{
    let n = s.as_str().unicode_len();
    if n == 0 {
        return false;
    }
    let mut i: usize = 0;
    while i < n
        invariant
            n == s@.len(),
            0 <= i <= n,
            forall|l: int| 0 <= l < i ==> is_word_char(s@[l]),
        decreases n - i,
    {
        let c = s.as_str().get_char(i);
        let ok = ('a' <= c && c <= 'z') || ('A' <= c && c <= 'Z') || ('0' <= c && c <= '9') || c
            == '-' || c == '_';
        if !ok {
            return false;
        }
        i = i + 1;
    }
    true
}

/// Whether every character of `s` is a letter or a digit.
fn check_alnum(s: &String) -> (r: bool)
    ensures
        r == seg_alnum(s@),
{
    let n = s.as_str().unicode_len();
    if n == 0 {
        return false;
    }
    let mut i: usize = 0;
    while i < n
        invariant
            n == s@.len(),
            0 <= i <= n,
            forall|l: int| 0 <= l < i ==> is_alnum(s@[l]),
        decreases n - i,
    {
        let c = s.as_str().get_char(i);
        let ok = ('a' <= c && c <= 'z') || ('A' <= c && c <= 'Z') || ('0' <= c && c <= '9');
        if !ok {
            return false;
        }
        i = i + 1;
    }
    true
}

/// Parse a `net` directive key, as `net_key_of` states it.
pub fn parse_net_key(k: &String) -> (r: Option<NetKey>)
    ensures
        match r {
            Some(nk) => net_key_of(k@) == Some((nk.kind@, nk.file@, nk.sect@, nk.name@)),
            None => net_key_of(k@) is None,
        },
{
    if !k.as_str().is_ascii() {
        return None;
    }
    let segs = split_dots(k.as_str());
    let ghost dv = dot_split(k@);
    proof {
        assert(segs.deep_view() == dv);
        assert(segs@.len() == dv.len());
    }
    let wyrcan = "wyrcan".to_owned();
    let wyr = "wyr".to_owned();
    let net = "net".to_owned();
    let link = "link".to_owned();
    let netdev = "netdev".to_owned();
    let network = "network".to_owned();
    proof {
        assert forall|j: int| 0 <= j < segs@.len() implies segs@[j].deep_view() =~= segs@[j]@ by {}
    }
    if segs.len() == 5 {
        let prefix_ok = segs[0] == wyrcan || segs[0] == wyr;
        let net_ok = segs[1] == net;
        if prefix_ok && net_ok && check_word(&segs[2]) && check_alnum(&segs[3]) && check_alnum(
            &segs[4],
        ) {
            let r = Some(
                NetKey {
                    kind: network,
                    file: segs[2].clone(),
                    sect: segs[3].clone(),
                    name: segs[4].clone(),
                },
            );
            return r;
        }
        None
    } else if segs.len() == 6 {
        let prefix_ok = segs[0] == wyrcan || segs[0] == wyr;
        let net_ok = segs[1] == net;
        let kind_ok = segs[2] == link || segs[2] == netdev || segs[2] == network;
        if prefix_ok && net_ok && kind_ok && check_word(&segs[3]) && check_alnum(&segs[4])
            && check_alnum(&segs[5]) {
            let r = Some(
                NetKey {
                    kind: segs[2].clone(),
                    file: segs[3].clone(),
                    sect: segs[4].clone(),
                    name: segs[5].clone(),
                },
            );
            return r;
        }
        None
    } else {
        None
    }
}

proof fn lemma_pairs_insert_at(v: PairsV, k: Seq<char>, val: Seq<char>, i: int)
    requires
        0 <= i < v.len(),
        v[i].0 == k,
        forall|j: int| 0 <= j < i ==> v[j].0 != k,
    ensures
        pairs_insert(v, k, val) == v.take(i) + seq![(k, val)] + v.skip(i + 1),
    decreases i,
{
    if i == 0 {
        assert(pairs_insert(v, k, val) =~= v.take(0) + seq![(k, val)] + v.skip(1));
    } else {
        assert forall|j: int| 0 <= j < i - 1 implies v.drop_first()[j].0 != k by {
            assert(v.drop_first()[j] == v[j + 1]);
        }
        assert(v.drop_first()[i - 1] == v[i]);
        lemma_pairs_insert_at(v.drop_first(), k, val, i - 1);
        assert(v.drop_first().take(i - 1) =~= v.subrange(1, i));
        assert(v.drop_first().skip(i) =~= v.skip(i + 1));
        assert(pairs_insert(v, k, val) =~= v.take(i) + seq![(k, val)] + v.skip(i + 1));
    }
}

proof fn lemma_pairs_insert_missing(v: PairsV, k: Seq<char>, val: Seq<char>)
    requires
        forall|j: int| 0 <= j < v.len() ==> v[j].0 != k,
    ensures
        pairs_insert(v, k, val) == v.push((k, val)),
    decreases v.len(),
{
    if v.len() == 0 {
        assert(pairs_insert(v, k, val) =~= v.push((k, val)));
    } else {
        assert forall|j: int| 0 <= j < v.drop_first().len() implies v.drop_first()[j].0 != k by {
            assert(v.drop_first()[j] == v[j + 1]);
        }
        lemma_pairs_insert_missing(v.drop_first(), k, val);
        assert(pairs_insert(v, k, val) =~= v.push((k, val)));
    }
}

proof fn lemma_sections_insert_at(v: SectionsV, sect: Seq<char>, k: Seq<char>, val: Seq<char>, i: int)
    requires
        0 <= i < v.len(),
        v[i].0 == sect,
        forall|j: int| 0 <= j < i ==> v[j].0 != sect,
    ensures
        sections_insert(v, sect, k, val) == v.take(i) + seq![(sect, pairs_insert(v[i].1, k, val))]
            + v.skip(i + 1),
    decreases i,
{
    if i == 0 {
        assert(sections_insert(v, sect, k, val) =~= v.take(0) + seq![
            (sect, pairs_insert(v[0].1, k, val)),
        ] + v.skip(1));
    } else {
        assert forall|j: int| 0 <= j < i - 1 implies v.drop_first()[j].0 != sect by {
            assert(v.drop_first()[j] == v[j + 1]);
        }
        assert(v.drop_first()[i - 1] == v[i]);
        lemma_sections_insert_at(v.drop_first(), sect, k, val, i - 1);
        assert(v.drop_first().take(i - 1) =~= v.subrange(1, i));
        assert(v.drop_first().skip(i) =~= v.skip(i + 1));
        assert(sections_insert(v, sect, k, val) =~= v.take(i) + seq![
            (sect, pairs_insert(v[i].1, k, val)),
        ] + v.skip(i + 1));
    }
}

proof fn lemma_sections_insert_missing(v: SectionsV, sect: Seq<char>, k: Seq<char>, val: Seq<char>)
    requires
        forall|j: int| 0 <= j < v.len() ==> v[j].0 != sect,
    ensures
        sections_insert(v, sect, k, val) == v.push((sect, pairs_insert(Seq::empty(), k, val))),
    decreases v.len(),
{
    if v.len() == 0 {
        assert(sections_insert(v, sect, k, val) =~= v.push(
            (sect, pairs_insert(Seq::empty(), k, val)),
        ));
    } else {
        assert forall|j: int| 0 <= j < v.drop_first().len() implies v.drop_first()[j].0 != sect by {
            assert(v.drop_first()[j] == v[j + 1]);
        }
        lemma_sections_insert_missing(v.drop_first(), sect, k, val);
        assert(sections_insert(v, sect, k, val) =~= v.push(
            (sect, pairs_insert(Seq::empty(), k, val)),
        ));
    }
}

proof fn lemma_files_insert_at(
    v: FilesV,
    f: Seq<char>,
    sect: Seq<char>,
    k: Seq<char>,
    val: Seq<char>,
    i: int,
)
    requires
        0 <= i < v.len(),
        v[i].0 == f,
        forall|j: int| 0 <= j < i ==> v[j].0 != f,
    ensures
        files_insert(v, f, sect, k, val) == v.take(i) + seq![
            (f, sections_insert(v[i].1, sect, k, val)),
        ] + v.skip(i + 1),
    decreases i,
{
    if i == 0 {
        assert(files_insert(v, f, sect, k, val) =~= v.take(0) + seq![
            (f, sections_insert(v[0].1, sect, k, val)),
        ] + v.skip(1));
    } else {
        assert forall|j: int| 0 <= j < i - 1 implies v.drop_first()[j].0 != f by {
            assert(v.drop_first()[j] == v[j + 1]);
        }
        assert(v.drop_first()[i - 1] == v[i]);
        lemma_files_insert_at(v.drop_first(), f, sect, k, val, i - 1);
        assert(v.drop_first().take(i - 1) =~= v.subrange(1, i));
        assert(v.drop_first().skip(i) =~= v.skip(i + 1));
        assert(files_insert(v, f, sect, k, val) =~= v.take(i) + seq![
            (f, sections_insert(v[i].1, sect, k, val)),
        ] + v.skip(i + 1));
    }
}

proof fn lemma_files_insert_missing(v: FilesV, f: Seq<char>, sect: Seq<char>, k: Seq<char>, val: Seq<char>)
    requires
        forall|j: int| 0 <= j < v.len() ==> v[j].0 != f,
    ensures
        files_insert(v, f, sect, k, val) == v.push(
            (f, sections_insert(Seq::empty(), sect, k, val)),
        ),
    decreases v.len(),
{
    if v.len() == 0 {
        assert(files_insert(v, f, sect, k, val) =~= v.push(
            (f, sections_insert(Seq::empty(), sect, k, val)),
        ));
    } else {
        assert forall|j: int| 0 <= j < v.drop_first().len() implies v.drop_first()[j].0 != f by {
            assert(v.drop_first()[j] == v[j + 1]);
        }
        lemma_files_insert_missing(v.drop_first(), f, sect, k, val);
        assert(files_insert(v, f, sect, k, val) =~= v.push(
            (f, sections_insert(Seq::empty(), sect, k, val)),
        ));
    }
}

/// Set `key` to `value` among the pairs of one section.
fn put_pair(entries: &mut Vec<NetPair>, key: String, value: String)
    ensures
        pairs_view(final(entries)@) == pairs_insert(pairs_view(old(entries)@), key@, value@),
{
    let ghost v = pairs_view(old(entries)@);
    let mut i: usize = 0;
    while i < entries.len()
        invariant
            0 <= i <= entries@.len(),
            entries@ == old(entries)@,
            v == pairs_view(entries@),
            forall|j: int| 0 <= j < i ==> v[j].0 != key@,
        decreases entries@.len() - i,
    {
        let hit = entries[i].key == key;
        proof {
            assert(v[i as int].0 == entries@[i as int].key@);
        }
        if hit {
            let _old_row = entries.remove(i);
            entries.insert(i, NetPair { key, value });
            proof {
                lemma_pairs_insert_at(v, key@, value@, i as int);
                assert(pairs_view(entries@) =~= v.take(i as int) + seq![(key@, value@)] + v.skip(
                    i + 1,
                ));
            }
            return;
        }
        i = i + 1;
    }
    entries.push(NetPair { key, value });
    proof {
        lemma_pairs_insert_missing(v, key@, value@);
        assert(pairs_view(entries@) =~= v.push((key@, value@)));
    }
}

/// Set `key` to `value` inside the section `sect` of one file.
fn put_section(sections: &mut Vec<NetSection>, sect: String, key: String, value: String)
    ensures
        sections_view(final(sections)@) == sections_insert(
            sections_view(old(sections)@),
            sect@,
            key@,
            value@,
        ),
{
    let ghost v = sections_view(old(sections)@);
    let mut i: usize = 0;
    while i < sections.len()
        invariant
            0 <= i <= sections@.len(),
            sections@ == old(sections)@,
            v == sections_view(sections@),
            forall|j: int| 0 <= j < i ==> v[j].0 != sect@,
        decreases sections@.len() - i,
    {
        let hit = sections[i].name == sect;
        proof {
            assert(v[i as int].0 == sections@[i as int].name@);
        }
        if hit {
            let mut row = sections.remove(i);
            put_pair(&mut row.entries, key, value);
            sections.insert(i, row);
            proof {
                lemma_sections_insert_at(v, sect@, key@, value@, i as int);
                assert(sections_view(sections@) =~= v.take(i as int) + seq![
                    (sect@, pairs_insert(v[i as int].1, key@, value@)),
                ] + v.skip(i + 1));
            }
            return;
        }
        i = i + 1;
    }
    let mut entries: Vec<NetPair> = Vec::new();
    entries.push(NetPair { key, value });
    let ghost kv = pairs_view(entries@);
    sections.push(NetSection { name: sect, entries });
    proof {
        lemma_sections_insert_missing(v, sect@, key@, value@);
        assert(kv =~= pairs_insert(Seq::empty(), key@, value@));
        assert(sections_view(sections@) =~= v.push((sect@, kv)));
    }
}

/// Set `key` to `value` inside section `sect` of the file `fname`.
fn put_file(files: &mut Vec<NetFile>, fname: String, sect: String, key: String, value: String)
    ensures
        files_view(final(files)@) == files_insert(
            files_view(old(files)@),
            fname@,
            sect@,
            key@,
            value@,
        ),
{
    let ghost v = files_view(old(files)@);
    let mut i: usize = 0;
    while i < files.len()
        invariant
            0 <= i <= files@.len(),
            files@ == old(files)@,
            v == files_view(files@),
            forall|j: int| 0 <= j < i ==> v[j].0 != fname@,
        decreases files@.len() - i,
    {
        let hit = files[i].name == fname;
        proof {
            assert(v[i as int].0 == files@[i as int].name@);
        }
        if hit {
            let mut row = files.remove(i);
            put_section(&mut row.sections, sect, key, value);
            files.insert(i, row);
            proof {
                lemma_files_insert_at(v, fname@, sect@, key@, value@, i as int);
                assert(files_view(files@) =~= v.take(i as int) + seq![
                    (fname@, sections_insert(v[i as int].1, sect@, key@, value@)),
                ] + v.skip(i + 1));
            }
            return;
        }
        i = i + 1;
    }
    let mut entries: Vec<NetPair> = Vec::new();
    entries.push(NetPair { key, value });
    let mut sections: Vec<NetSection> = Vec::new();
    let ghost kv = pairs_view(entries@);
    sections.push(NetSection { name: sect, entries });
    let ghost sv = sections_view(sections@);
    files.push(NetFile { name: fname, sections });
    proof {
        lemma_files_insert_missing(v, fname@, sect@, key@, value@);
        assert(kv =~= pairs_insert(Seq::empty(), key@, value@));
        assert(sv =~= sections_insert(Seq::empty(), sect@, key@, value@));
        assert(files_view(files@) =~= v.push((fname@, sv)));
    }
}


/// The pairs of a section read as a map; an earlier pair wins over a
/// later duplicate, so a list kept by `pairs_insert` reads naturally.
pub open spec fn pairs_map(s: PairsV) -> Map<Seq<char>, Seq<char>>
    decreases s.len(),
{
    if s.len() == 0 {
        Map::empty()
    } else {
        pairs_map(s.drop_first()).insert(s[0].0, s[0].1)
    }
}

/// The sections of a file read as a map of maps.
pub open spec fn sections_map(s: SectionsV) -> Map<Seq<char>, Map<Seq<char>, Seq<char>>>
    decreases s.len(),
{
    if s.len() == 0 {
        Map::empty()
    } else {
        sections_map(s.drop_first()).insert(s[0].0, pairs_map(s[0].1))
    }
}

/// The network files read as a map of maps of maps.
pub open spec fn files_map(s: FilesV) -> Map<Seq<char>, Map<Seq<char>, Map<Seq<char>, Seq<char>>>>
    decreases s.len(),
{
    if s.len() == 0 {
        Map::empty()
    } else {
        files_map(s.drop_first()).insert(s[0].0, sections_map(s[0].1))
    }
}

/// Setting a pair is a map update: the list operation and the map
/// insert say the same thing.
pub proof fn lemma_pairs_insert_map(s: PairsV, k: Seq<char>, v: Seq<char>)
    ensures
        pairs_map(pairs_insert(s, k, v)) == pairs_map(s).insert(k, v),
    decreases s.len(),
{
    if s.len() == 0 {
        assert(pairs_insert(s, k, v).drop_first() =~= s);
        assert(pairs_map(pairs_insert(s, k, v)) =~= pairs_map(s).insert(k, v));
    } else if s[0].0 == k {
        let r = pairs_insert(s, k, v);
        assert(r[0] == (k, v));
        assert(r.drop_first() =~= s.drop_first());
        assert(pairs_map(r) =~= pairs_map(s).insert(k, v));
    } else {
        let r = pairs_insert(s, k, v);
        assert(r[0] == s[0]);
        assert(r.drop_first() =~= pairs_insert(s.drop_first(), k, v));
        lemma_pairs_insert_map(s.drop_first(), k, v);
        assert(pairs_map(r) =~= pairs_map(s).insert(k, v));
    }
}

/// The sections a directive sees: the section's current pairs, or an
/// empty map for a fresh section.
pub open spec fn section_pairs_or_empty(
    m: Map<Seq<char>, Map<Seq<char>, Seq<char>>>,
    sect: Seq<char>,
) -> Map<Seq<char>, Seq<char>> {
    if m.contains_key(sect) {
        m[sect]
    } else {
        Map::empty()
    }
}

/// Setting a pair inside a section is a nested map update.
pub proof fn lemma_sections_insert_map(s: SectionsV, sect: Seq<char>, k: Seq<char>, v: Seq<char>)
    ensures
        sections_map(sections_insert(s, sect, k, v)) == sections_map(s).insert(
            sect,
            section_pairs_or_empty(sections_map(s), sect).insert(k, v),
        ),
    decreases s.len(),
{
    if s.len() == 0 {
        let r = sections_insert(s, sect, k, v);
        assert(r[0] == (sect, pairs_insert(Seq::empty(), k, v)));
        assert(r.drop_first() =~= s);
        lemma_pairs_insert_map(Seq::empty(), k, v);
        assert(pairs_map(Seq::<(Seq<char>, Seq<char>)>::empty()) == Map::<Seq<char>, Seq<char>>::empty());
        assert(sections_map(r) =~= sections_map(s).insert(
            sect,
            section_pairs_or_empty(sections_map(s), sect).insert(k, v),
        ));
    } else if s[0].0 == sect {
        let r = sections_insert(s, sect, k, v);
        assert(r[0] == (sect, pairs_insert(s[0].1, k, v)));
        assert(r.drop_first() =~= s.drop_first());
        lemma_pairs_insert_map(s[0].1, k, v);
        assert(section_pairs_or_empty(sections_map(s), sect) == pairs_map(s[0].1));
        assert(sections_map(r) =~= sections_map(s).insert(
            sect,
            section_pairs_or_empty(sections_map(s), sect).insert(k, v),
        ));
    } else {
        let r = sections_insert(s, sect, k, v);
        assert(r[0] == s[0]);
        assert(r.drop_first() =~= sections_insert(s.drop_first(), sect, k, v));
        lemma_sections_insert_map(s.drop_first(), sect, k, v);
        assert(section_pairs_or_empty(sections_map(s), sect) == section_pairs_or_empty(
            sections_map(s.drop_first()),
            sect,
        ));
        assert(sections_map(r) =~= sections_map(s).insert(
            sect,
            section_pairs_or_empty(sections_map(s), sect).insert(k, v),
        ));
    }
}

/// The sections a directive sees in a file, or an empty map for a
/// fresh file.
pub open spec fn file_sections_or_empty(
    m: Map<Seq<char>, Map<Seq<char>, Map<Seq<char>, Seq<char>>>>,
    f: Seq<char>,
) -> Map<Seq<char>, Map<Seq<char>, Seq<char>>> {
    if m.contains_key(f) {
        m[f]
    } else {
        Map::empty()
    }
}

/// What one `net` directive does to the nested maps: it sets KEY to
/// VAL inside SECTION of FILE and touches nothing else.
pub open spec fn net_slot_update(
    m: Map<Seq<char>, Map<Seq<char>, Map<Seq<char>, Seq<char>>>>,
    f: Seq<char>,
    sect: Seq<char>,
    k: Seq<char>,
    v: Seq<char>,
) -> Map<Seq<char>, Map<Seq<char>, Map<Seq<char>, Seq<char>>>> {
    let inner = file_sections_or_empty(m, f);
    m.insert(f, inner.insert(sect, section_pairs_or_empty(inner, sect).insert(k, v)))
}

/// One `net` directive, read over nested maps.  Together with the
/// configuration fold this gives repeated directives for one slot
/// their last-one-wins meaning.
pub proof fn lemma_files_insert_map(
    s: FilesV,
    f: Seq<char>,
    sect: Seq<char>,
    k: Seq<char>,
    v: Seq<char>,
)
    ensures
        files_map(files_insert(s, f, sect, k, v)) == net_slot_update(files_map(s), f, sect, k, v),
    decreases s.len(),
{
    if s.len() == 0 {
        let r = files_insert(s, f, sect, k, v);
        assert(r[0] == (f, sections_insert(Seq::empty(), sect, k, v)));
        assert(r.drop_first() =~= s);
        lemma_sections_insert_map(Seq::empty(), sect, k, v);
        assert(sections_map(Seq::<(Seq<char>, PairsV)>::empty()) == Map::<
            Seq<char>,
            Map<Seq<char>, Seq<char>>,
        >::empty());
        assert(files_map(r) =~= net_slot_update(files_map(s), f, sect, k, v));
    } else if s[0].0 == f {
        let r = files_insert(s, f, sect, k, v);
        assert(r[0] == (f, sections_insert(s[0].1, sect, k, v)));
        assert(r.drop_first() =~= s.drop_first());
        lemma_sections_insert_map(s[0].1, sect, k, v);
        assert(file_sections_or_empty(files_map(s), f) == sections_map(s[0].1));
        assert(files_map(r) =~= net_slot_update(files_map(s), f, sect, k, v));
    } else {
        let r = files_insert(s, f, sect, k, v);
        assert(r[0] == s[0]);
        assert(r.drop_first() =~= files_insert(s.drop_first(), f, sect, k, v));
        lemma_files_insert_map(s.drop_first(), f, sect, k, v);
        assert(file_sections_or_empty(files_map(s), f) == file_sections_or_empty(
            files_map(s.drop_first()),
            f,
        ));
        assert(files_map(r) =~= net_slot_update(files_map(s), f, sect, k, v));
    }
}

} // verus!
