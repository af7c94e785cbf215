# sniffbox

A transparent gateway: it takes over the connections that the kernel hands it, and those of
SOCKS5 and HTTP clients, decides what becomes of each, and sends them on directly, through a
tunnel, or through another proxy.

* `src/` is the library. It decides and computes: settings, rules, the proxy protocols, the
  supervision of the processes around the gateway, the panel's figures, the reports. Every
  function states what it returns, and Verus proves it. What the machine says (its files, its
  clock, its processes) is handed in as plain values.
* `tests/` runs the library on concrete values.
* `app/` is the program: sockets, files, processes, and the figures that are floating point.

The modules of the library, by what they are about:

| | |
|---|---|
| settings | `config`, `production`, `cli`, `runtime` |
| connections | `engine`, `inbound_proxy`, `outbound`, `resolver`, `domain_rules`, `ip_rules`, `dns_server`, `probe`, `records`, `tasks` |
| processes | `ovpn_ctl`, `clash_ctl`, `clash_pull`, `smart_speed`, `geo_cron` |
| the tunnel | `cf_config`, `cf_ctl`, `cf_edge`, `cf_probe`, `cf_quality`, `cf_metrics`, `cf_summary` |
| the machine | `sysinfo`, `nic`, `nft`, `info`, `logging` |
| reports | `pplog` |
| groundwork | `addr`, `bytes`, `cidr`, `civil`, `decimal`, `json`, `names`, `nearest`, `table`, `text` |

Functions named `law_..` state what holds of several functions together.
