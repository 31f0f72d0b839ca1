use wyrcan::cmdline::CmdLine;
use wyrcan::config::{Config, parse_net_key};

#[test]
fn merge_from_cmdline() {
    let cmdline = CmdLine::new("wyrcan.img=r/d:1 wyr.arg=quiet wyrcan.arg=ro".to_string()).unwrap();
    let mut args = cmdline.args();
    let cfg = Config::from_args(&mut args);
    assert_eq!(cfg.image, Some("r/d:1".to_string()));
    assert_eq!(cfg.cmdline, vec!["quiet".to_string(), "ro".to_string()]);
    assert!(cfg.network.is_empty());
}

#[test]
fn last_image_wins() {
    let cmdline = CmdLine::new("wyr.img=a wyrcan.img=b".to_string()).unwrap();
    let mut args = cmdline.args();
    let cfg = Config::from_args(&mut args);
    assert_eq!(cfg.image, Some("b".to_string()));
}

#[test]
fn fallback_to_nvram_record() {
    let cmdline = CmdLine::new("quiet splash".to_string()).unwrap();
    let mut args = cmdline.args();
    let from_cmdline = Config::from_args(&mut args);
    assert_eq!(from_cmdline.image, None);

    let mut nvram = Config::default();
    nvram.image = Some("r/d:1".to_string());
    nvram.cmdline = vec!["ro".to_string()];

    let resolved = Config::resolve(from_cmdline, Some(nvram));
    assert_eq!(resolved.image, Some("r/d:1".to_string()));
    assert_eq!(resolved.cmdline, vec!["ro".to_string()]);
    assert!(resolved.network.is_empty());
}

#[test]
fn cmdline_image_beats_nvram() {
    let cmdline = CmdLine::new("wyr.img=cl".to_string()).unwrap();
    let mut args = cmdline.args();
    let from_cmdline = Config::from_args(&mut args);

    let mut nvram = Config::default();
    nvram.image = Some("nv".to_string());

    let resolved = Config::resolve(from_cmdline, Some(nvram));
    assert_eq!(resolved.image, Some("cl".to_string()));
}

#[test]
fn no_image_anywhere_is_empty() {
    let cmdline = CmdLine::new("quiet".to_string()).unwrap();
    let mut args = cmdline.args();
    let from_cmdline = Config::from_args(&mut args);
    let resolved = Config::resolve(from_cmdline, None);
    assert_eq!(resolved.image, None);
    assert!(resolved.cmdline.is_empty());
    assert!(resolved.network.is_empty());
}

#[test]
fn net_key_with_kind() {
    let parts = parse_net_key(&"wyrcan.net.link.eth0.Match.Type".to_string()).unwrap();
    assert_eq!(parts.kind, "link");
    assert_eq!(parts.file, "eth0");
    assert_eq!(parts.sect, "Match");
    assert_eq!(parts.name, "Type");
}

#[test]
fn net_key_without_kind_defaults_to_network() {
    let parts = parse_net_key(&"wyr.net.eth0.Network.DHCP".to_string()).unwrap();
    assert_eq!(parts.kind, "network");
    assert_eq!(parts.file, "eth0");
    assert_eq!(parts.sect, "Network");
    assert_eq!(parts.name, "DHCP");
}

#[test]
fn net_key_rejects_bad_shapes() {
    assert!(parse_net_key(&"wyrcan.net.eth0.Match".to_string()).is_none());
    assert!(parse_net_key(&"other.net.eth0.Match.Type".to_string()).is_none());
    assert!(parse_net_key(&"wyrcan.net..Match.Type".to_string()).is_none());
    assert!(parse_net_key(&"wyrcan.net.eth0.Ma tch.Type".to_string()).is_none());
    assert!(parse_net_key(&"wyrcan.net.bond.eth0.Match.Type".to_string()).is_none());
}

#[test]
fn net_directives_fill_files() {
    let line = "wyrcan.net.link.eth0.Match.Type=ether wyr.net.eth0.Network.DHCP=yes \
                wyr.net.eth0.Network.DHCP=no";
    let cmdline = CmdLine::new(line.to_string()).unwrap();
    let mut args = cmdline.args();
    let cfg = Config::from_args(&mut args);
    assert_eq!(cfg.network.len(), 2);
    assert_eq!(cfg.network[0].name, "eth0.link");
    assert_eq!(cfg.network[0].sections[0].name, "Match");
    assert_eq!(cfg.network[0].sections[0].entries[0].key, "Type");
    assert_eq!(cfg.network[0].sections[0].entries[0].value, "ether");
    assert_eq!(cfg.network[1].name, "eth0.network");
    assert_eq!(cfg.network[1].sections[0].name, "Network");
    assert_eq!(cfg.network[1].sections[0].entries.len(), 1);
    assert_eq!(cfg.network[1].sections[0].entries[0].key, "DHCP");
    assert_eq!(cfg.network[1].sections[0].entries[0].value, "no");
}
