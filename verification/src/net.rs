//! The systemd-network files derived from the configuration.
//!
//! Each network unit file is rendered as plain INI: a `[SECTION]`
//! line, one `KEY=VALUE` line per entry, and a blank line closing the
//! section.  When the configuration names no network directives at
//! all, a single autoconfiguration file takes their place: match every
//! ethernet link, use DHCP, and accept IPv6 router advertisements.

use crate::config::Config;
use crate::config::NetFile;
use crate::config::NetPair;
use crate::config::NetSection;
use crate::config::PairsV;
use crate::config::SectionsV;
use crate::config::FilesV;
use crate::config::files_view;
use crate::config::pairs_view;
use crate::config::sections_view;
use vstd::prelude::*;
use vstd::string::*;
use vstd::utf8::encode_utf8;

verus! {

/// The `net` command: write the network unit files out.
pub struct Net {}

/// The bytes of one `KEY=VALUE` line.
pub open spec fn pair_bytes(p: (Seq<char>, Seq<char>)) -> Seq<u8> {
    encode_utf8(p.0) + seq![61u8] + encode_utf8(p.1) + seq![10u8]
}

/// The bytes of a section's entry lines.
pub open spec fn render_pairs(ps: PairsV) -> Seq<u8>
    decreases ps.len(),
{
    if ps.len() == 0 {
        Seq::empty()
    } else {
        pair_bytes(ps[0]) + render_pairs(ps.drop_first())
    }
}

/// The bytes of one whole section: its header line, its entries, and
/// a closing blank line.
pub open spec fn section_bytes(s: (Seq<char>, PairsV)) -> Seq<u8> {
    seq![91u8] + encode_utf8(s.0) + seq![93u8, 10u8] + render_pairs(s.1) + seq![10u8]
}

/// The bytes of one unit file.
pub open spec fn render_sections(ss: SectionsV) -> Seq<u8>
    decreases ss.len(),
{
    if ss.len() == 0 {
        Seq::empty()
    } else {
        section_bytes(ss[0]) + render_sections(ss.drop_first())
    }
}

proof fn lemma_render_pairs_snoc(ps: PairsV, x: (Seq<char>, Seq<char>))
    ensures
        render_pairs(ps.push(x)) == render_pairs(ps) + pair_bytes(x),
    decreases ps.len(),
{
    if ps.len() == 0 {
        assert(ps.push(x)[0] == x);
        assert(ps.push(x).drop_first() =~= ps);
        assert(render_pairs(ps.push(x)) =~= render_pairs(ps) + pair_bytes(x));
    } else {
        assert(ps.push(x)[0] == ps[0]);
        assert(ps.push(x).drop_first() =~= ps.drop_first().push(x));
        lemma_render_pairs_snoc(ps.drop_first(), x);
        assert(render_pairs(ps.push(x)) =~= render_pairs(ps) + pair_bytes(x));
    }
}

proof fn lemma_render_sections_snoc(ss: SectionsV, x: (Seq<char>, PairsV))
    ensures
        render_sections(ss.push(x)) == render_sections(ss) + section_bytes(x),
    decreases ss.len(),
{
    if ss.len() == 0 {
        assert(ss.push(x)[0] == x);
        assert(ss.push(x).drop_first() =~= ss);
        assert(render_sections(ss.push(x)) =~= render_sections(ss) + section_bytes(x));
    } else {
        assert(ss.push(x)[0] == ss[0]);
        assert(ss.push(x).drop_first() =~= ss.drop_first().push(x));
        lemma_render_sections_snoc(ss.drop_first(), x);
        assert(render_sections(ss.push(x)) =~= render_sections(ss) + section_bytes(x));
    }
}

/// Append a string's bytes.
fn append_str_bytes(out: &mut Vec<u8>, s: &String)
    ensures
        final(out)@ == old(out)@ + encode_utf8(s@),
{
    let add = s.as_str().as_bytes_vec();
    let ghost head = out@;
    let mut i: usize = 0;
    while i < add.len()
        invariant
            0 <= i <= add@.len(),
            add@ == encode_utf8(s@),
            out@ == head + add@.take(i as int),
        decreases add@.len() - i,
    {
        out.push(add[i]);
        proof {
            assert(add@.take(i + 1) =~= add@.take(i as int) + seq![add@[i as int]]);
        }
        i = i + 1;
    }
    proof {
        assert(add@.take(add@.len() as int) =~= add@);
    }
}

/// Render one unit file as INI bytes.
pub fn render_ini(file: &NetFile) -> (r: Vec<u8>)
    ensures
        r@ == render_sections(sections_view(file.sections@)),
{
    let ghost sv = sections_view(file.sections@);
    let mut out: Vec<u8> = Vec::new();
    let mut i: usize = 0;
    proof {
        assert(render_sections(sv.take(0)) == Seq::<u8>::empty());
        assert(out@ =~= Seq::<u8>::empty());
    }
    while i < file.sections.len()
        invariant
            0 <= i <= file.sections@.len(),
            sv == sections_view(file.sections@),
            sv.len() == file.sections@.len(),
            out@ == render_sections(sv.take(i as int)),
        decreases file.sections@.len() - i,
    {
        let sect = &file.sections[i];
        let ghost head = out@;
        out.push(91u8);
        append_str_bytes(&mut out, &sect.name);
        out.push(93u8);
        out.push(10u8);
        let ghost pv = pairs_view(sect.entries@);
        let ghost mid = out@;
        let mut j: usize = 0;
        proof {
            assert(render_pairs(pv.take(0)) == Seq::<u8>::empty());
            assert(out@ =~= mid + render_pairs(pv.take(0)));
        }
        while j < sect.entries.len()
            invariant
                0 <= j <= sect.entries@.len(),
                pv == pairs_view(sect.entries@),
                pv.len() == sect.entries@.len(),
                out@ == mid + render_pairs(pv.take(j as int)),
            decreases sect.entries@.len() - j,
        {
            let pair = &sect.entries[j];
            append_str_bytes(&mut out, &pair.key);
            out.push(61u8);
            append_str_bytes(&mut out, &pair.value);
            out.push(10u8);
            proof {
                assert(pv[j as int] == (pair.key@, pair.value@));
                assert(pv.take(j + 1) =~= pv.take(j as int).push(pv[j as int]));
                lemma_render_pairs_snoc(pv.take(j as int), pv[j as int]);
                assert(out@ =~= mid + (render_pairs(pv.take(j as int)) + pair_bytes(pv[j as int])));
            }
            j = j + 1;
        }
        out.push(10u8);
        proof {
            assert(pv.take(pv.len() as int) =~= pv);
            assert(sv[i as int] == (sect.name@, pv));
            assert(sv.take(i + 1) =~= sv.take(i as int).push(sv[i as int]));
            lemma_render_sections_snoc(sv.take(i as int), sv[i as int]);
            assert(out@ =~= head + section_bytes(sv[i as int]));
            assert(out@ =~= render_sections(sv.take(i + 1)));
        }
        i = i + 1;
    }
    proof {
        assert(sv.take(sv.len() as int) =~= sv);
    }
    out
}

/// The autoconfiguration fallback: one `autoconf.network` file that
/// matches ethernet links and enables DHCP and IPv6 router
/// advertisements.
pub open spec fn default_files() -> FilesV {
    seq![
        (
            "autoconf.network"@,
            seq![
                ("Match"@, seq![("Type"@, "ether"@)]),
                ("Network"@, seq![("DHCP"@, "yes"@), ("IPv6AcceptRA"@, "yes"@)]),
            ],
        ),
    ]
}

/// Give a configuration without network directives the
/// autoconfiguration fallback; one with directives is left alone.
pub fn apply_network_defaults(cfg: &mut Config)
    ensures
        old(cfg).network@.len() > 0 ==> *final(cfg) == *old(cfg),
        old(cfg).network@.len() == 0 ==> final(cfg).image == old(cfg).image && final(cfg).cmdline
            == old(cfg).cmdline && files_view(final(cfg).network@) == default_files(),
{
    if cfg.network.len() == 0 {
        let mut match_entries: Vec<NetPair> = Vec::new();
        match_entries.push(NetPair { key: "Type".to_owned(), value: "ether".to_owned() });
        let mut network_entries: Vec<NetPair> = Vec::new();
        network_entries.push(NetPair { key: "DHCP".to_owned(), value: "yes".to_owned() });
        network_entries.push(NetPair { key: "IPv6AcceptRA".to_owned(), value: "yes".to_owned() });
        let mut sections: Vec<NetSection> = Vec::new();
        sections.push(NetSection { name: "Match".to_owned(), entries: match_entries });
        sections.push(NetSection { name: "Network".to_owned(), entries: network_entries });
        let mut files: Vec<NetFile> = Vec::new();
        files.push(NetFile { name: "autoconf.network".to_owned(), sections });
        proof {
            assert(files_view(files@)[0].1[0].1 =~= default_files()[0].1[0].1);
            assert(files_view(files@)[0].1[1].1 =~= default_files()[0].1[1].1);
            assert(files_view(files@)[0].1 =~= default_files()[0].1);
            assert(files_view(files@) =~= default_files());
        }
        cfg.network = files;
    }
}

} // verus!
