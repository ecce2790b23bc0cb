# pishock_bridge

Fires PiShock devices from VRChat avatar contacts: a contact parameter whose
name starts with `SHK` fires the devices routed to it when its value rises
above 0.5, while output is armed.

## Layout

- `src/` is the verified library (Verus):
  - `state.rs`: the bridge's state machine (contacts, routing, arming,
    per-device sending and cooldowns), with a millisecond clock supplied by
    the caller;
  - `pishock.rs`: reading the configuration and environment into an account
    and devices, request bodies, and judging PiShock's answers;
  - `share.rs`: extracting share codes from a configured value;
  - `osc.rs`: the mDNS announcement packet and the OSCQuery HTTP checks;
  - `theme.rs`: theme identifiers and defaults;
  - `text.rs`, `json.rs`: text and JSON helpers with exact specifications;
  - `properties.rs`: laws about the above, proved by Verus.
- `tests/` runs the library on concrete values.
- `app/` is the desktop program: networking, HTTPS, the window and its
  colours, which hand plain values to the library.
