# unyeong

Cluster management for Talos Linux metal clusters, with its decision logic
verified by Verus.

- `src/` is the verified library: matching machines to hardware profiles by
  MAC address, resolving NIC and disk rules, rendering configuration patches
  and host lists, choosing the disks of the fixed two-node layout, bounded
  retries, and the command lines given to `talosctl`.
- `app/` is the command-line program around it: argument handling, reading
  the TOML configuration, running `talosctl`, `kubectl` and `nmap`, and
  writing files.
- `tests/` exercises the library on concrete values.
