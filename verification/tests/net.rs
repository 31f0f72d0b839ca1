use wyrcan::cmdline::CmdLine;
use wyrcan::config::Config;
use wyrcan::net::{apply_network_defaults, render_ini};

#[test]
fn render_single_section() {
    let line = "wyrcan.net.link.eth0.Match.Type=ether";
    let cmdline = CmdLine::new(line.to_string()).unwrap();
    let mut args = cmdline.args();
    let cfg = Config::from_args(&mut args);
    assert_eq!(cfg.network.len(), 1);
    assert_eq!(cfg.network[0].name, "eth0.link");
    let ini = render_ini(&cfg.network[0]);
    assert_eq!(ini, b"[Match]\nType=ether\n\n".to_vec());
}

#[test]
fn render_defaults() {
    let mut cfg = Config::default();
    apply_network_defaults(&mut cfg);
    assert_eq!(cfg.network.len(), 1);
    assert_eq!(cfg.network[0].name, "autoconf.network");
    let ini = render_ini(&cfg.network[0]);
    assert_eq!(
        ini,
        b"[Match]\nType=ether\n\n[Network]\nDHCP=yes\nIPv6AcceptRA=yes\n\n".to_vec()
    );
}

#[test]
fn defaults_leave_configured_network_alone() {
    let line = "wyr.net.eth0.Network.DHCP=no";
    let cmdline = CmdLine::new(line.to_string()).unwrap();
    let mut args = cmdline.args();
    let mut cfg = Config::from_args(&mut args);
    apply_network_defaults(&mut cfg);
    assert_eq!(cfg.network.len(), 1);
    assert_eq!(cfg.network[0].name, "eth0.network");
    assert_eq!(render_ini(&cfg.network[0]), b"[Network]\nDHCP=no\n\n".to_vec());
}
