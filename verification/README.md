# myarchy

Display, brightness, night light, wallpaper, cursor and idle control for a Hyprland desktop.

`src/` is the library, verified with Verus: the screen layout and how it is reconciled with what
the compositor reports, the layout operations (extend, mirror, only, place, enable, disable), the
rules a layout is written as, the profile key, the text formats of modes, positions and scales,
the night light's temperature mapping, the idle inhibitor's decisions, and the commands
themselves. The commands run through traits that the program implements over the compositor,
the files and the screen saver, whose answers nothing here can foresee; so each command keeps,
as ghost state, the calls it made on its controls with what each answered, and its contract
says what those calls were and what it did with the answers: which layout a display command
renders and saves (`app::display::*_planned`), that workspaces leave a screen before the rules
switching it off are written, what the hotplug hook does about a settled reading
(`hotplug_plan`), when a reading is trusted (`settle_step`), and how the cursor, wallpaper and
brightness commands fall back, remember and render. The laws the library keeps are
public proof functions beside the functions they speak of, among them:

- `place::lemma_place_edge_to_edge`, `place::lemma_place_never_overlaps`,
  `place::lemma_place_is_idempotent`;
- `observe::lemma_synced_matches` and `app::display::lemma_auto_leaves_a_synced_layout_alone`;
- `resolution::lemma_size_round_trip`, `resolution::lemma_resolution_round_trip`,
  `layout::lemma_placement_round_trip`;
- `engine::lemma_switched_off_and_on`, `percent::lemma_percent_round_trip`;
- `nightlight::lemma_nightlight_round_trip`, `store::lemma_profile_key_ignores_order`;
- `idle::lemma_daemon_requests`.

`app/` is the program around it: `myarchy-ctl`'s command line, the processes, files and sockets
the controls drive, and the idle inhibitor's client and daemon, which run as the same program
under the names `idle-inhibitor` and `idle-inhibitord`.

`tests/` runs the library on concrete values.
