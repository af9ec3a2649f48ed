# i3-awm

A small daemon that watches X11 monitor connect/disconnect events and restores
the [i3](https://i3wm.org/) layout per monitor. When a monitor is unplugged and
later plugged back in, its workspaces are put back on it, and its resolution,
position and primary flag are restored. Monitors are identified by their xrandr
output name (`HDMI-1`, `eDP-1`, ...).

The rules are a library verified with [Verus](https://github.com/verus-lang/verus);
the daemon around it does the input and output.

## Layout

- `src/` is the library. It is pure: it takes what the programs and servers
  around it have said as plain values, and gives back what to do.
  - `xrandr` reads the report of `xrandr --query`; `randr` reads RandR replies.
  - `memory` holds what is remembered of each output; `layout` keeps it in step
    with what is seen; `state_file` tells where it is stored.
  - `reconcile` and `restore` decide what to restore and how; `i3` writes the
    commands that move workspaces.
  - `tracker`, `randr_events` and `randr::watch` are the decisions of the event
    loops.
  - `history` states what the memory keeps while monitors come and go, up to
    `law_replugged_monitor_is_restored`.
  - `text`, `decimal`, `names` and `output` are what the others are built on.
- `tests/` runs the library on concrete values.
- `app/` is the daemon: threads, the X connection, the i3 socket, the `xrandr`
  command and the JSON state file.

The proofs take one thing on trust: `text::text_from_bytes`, which calls
`String::from_utf8_lossy`.
