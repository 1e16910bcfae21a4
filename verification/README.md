# rproc

A task manager for Linux desktops: processes grouped by name, startup
applications and systemd units, services, GPUs, with a configurable refresh
interval.

The library (`src/`) holds what the program decides, proved by Verus against
its contracts. The exception is the shared refresh interval in `settings`:
what its atomic holds cannot be stated, so only the clamping of a requested
interval is proved there.


- `text`, `path`, `unicode`: the string and path operations the rest is
  stated over (trimming, lines, words, `Path::file_name`, `Path::join`, ...).
- `desktop`, `icons`, `icon_theme`, `resolver`: reading `.desktop` files,
  indexing process names to icon names, the icon theme chain, and resolving a
  process to an icon file.
- `services`, `startup`: the unit lists that `systemctl` and
  `systemd-analyze` print, autostart files and how switching one rewrites it,
  the order of the startup list.
- `ui`: the state of each page and what it shows (filtering, grouping,
  sorting, messages).
- `settings`, `sorting`, `system`: the refresh interval, stable sorting, and
  the `kill` and GPU card decisions.

`app/` is the window (egui), the sampling thread (sysinfo, NVML) and every
command and file access; it hands what it reads to the library and carries
out what the library decides.
