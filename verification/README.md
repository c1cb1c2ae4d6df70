# sailboat

Decision logic of a sailing autopilot, verified with Verus, and a simulator
around it.

The library under `src/` holds what can be decided exactly: which leg a boat
sails and on which tack, when it waits for the tide, where a passage goes, which
heading keeps off the land, how the rudder and the sail are limited, what the
bytes on the serial and radio links mean, and what is reported of a run. It
carries measured quantities by their binary64 bit pattern, on which comparing,
choosing and limiting are exact; whatever needs floating-point arithmetic is
asked of the caller, as a value or as a function.

| Module | What it holds |
|---|---|
| `scalar`, `number` | quantities as bit patterns, their order, whole numbers |
| `frame`, `proto`, `link` | frames, messages, and both ends of each link |
| `route` | routes and the follower |
| `polar`, `planner`, `simplify`, `passage`, `route_file` | passage planning |
| `coast` | charts, obstacles, and what is clear of them |
| `helm`, `autopilot` | rudder, sail and the control tick |
| `conditions` | wind and tidal stream |
| `sim`, `state` | the run of a simulation |
| `report`, `figure`, `cli` | what is reported, drawn and typed |

`app/` is the program: options, files, floating-point physics, plots, serial
ports. `app/firmware/` is the program of the nRF52840 board, which is built for
the board on its own. Both steer and trim with the one copy of the control
arithmetic in `app/steering.rs`, the simulator at double precision and the board
at single. `tests/` runs the library.

The laws that hold of the library as a whole are the public proof functions
whose names begin with `law_`.
