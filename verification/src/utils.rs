pub mod talosctl_wrapper;
