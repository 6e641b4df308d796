# cosmic_workspaces

Special workspaces (scratchpads) and the scrolling workspace strip of a Wayland
compositor, as a verified library.

- `store` and `manager` keep the books: which window is parked in which special,
  which specials are shown, and where focus returns to.
- `model` and `workspaces` are a picture of the compositor in plain values:
  outputs, workspaces, their layers and focus stacks.
- `shell` is the policy: showing, hiding, sending and following. A call works on
  the picture and lists in `effects` what has to be done to the compositor.
- `transitions` says what each of these calls does, `presence` where a window
  is known, and `laws` and `visibility` what holds of them: a window is parked
  at most once, is on no layout and gets no focus once its special is hidden,
  wherever the compositor had put it, and is put on the active workspace when
  its special is shown.
- `special_config`, `names` and `workspace_config` hold the configuration and
  the slots of named specials.
- `workspace_strip` is the column geometry of the strip in whole pixels.

`app/` is the compositor's side: configuration files, smithay's types, the
animated viewport (floating point), and the loop that carries out effects.
