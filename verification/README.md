# themistocle

A packet-capture viewer: it shows each packet of a pcap capture as a line of
upper-case hexadecimal, and its find window colours, recolours, removes and
counts the occurrences of a motif in that text.

- `src/` is the verified library (Verus):
  - `hex.rs`: hexadecimal rendering of bytes and of a capture's packets;
  - `scan.rs`: the scan that finds a motif in the shown text, with its model
    (`scan_run`, `scan_hits`) and laws (when it ends, what it tags);
  - `capture.rs`: reading a capture's packets through `pcap-file`;
  - `config.rs`: the settings document, through `rust-ini`;
  - `actions.rs`: the find window's decisions (action names, tag names, the
    count message).
- `app/` is the GTK program around it.
- `tests/` runs the library on concrete inputs.
