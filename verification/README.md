# mmorpg_lab

A fleet of game servers, with its rules verified by Verus.

A world of 1000 by 1000 is split into four shards. Each shard has a game server;
an entity that crosses a border is handed over from server to server. A broker
carries what servers publish to the clients that can see it, and what clients put
in to the servers. A spatial service watches where entities are: it tells the
broker what each client sees, and the servers which entities near a border. An
orchestrator registers the servers and starts new ones; a gatekeeper lets players
in and finds a server for them.

## Layout

`src/` is the library: what each part does with what it hears, and what it says.

| module | what it holds |
|---|---|
| `single` | single-precision numbers by their bit patterns, after IEEE 754 |
| `quad_tree` | who owns a position, and which shards are near |
| `spatial` | crossing alerts and the areas that clients see |
| `broker` | publish and subscribe |
| `resources`, `server` | the players of a server; inputs, positions, published state |
| `handoff` | the handoff of entities from shard to shard |
| `game` | a server as a whole: what each message does to it |
| `client` | the game client, up to what is drawn |
| `orchestrator`, `gatekeeper` | registration, scaling and login |
| `protocol` | that what one service writes, another reads |
| `timer` | timers that fire at a fixed period |
| `wire`, `text`, `packet`, `vec_map` | fields, texts, packets and an ordered map |
| `outside` | what is taken from the crates `bytes` and `uuid`, and believed |

Coordinates are held as bit patterns, so that what is proved of them holds of the
bytes that travel. Connections and UUIDs are numbers of 128 bits.

`app/` runs the library: the network, Redis, HTTP, JSON, Bevy and the drawing.
It is one program that runs the service it is called by or told to run: `broker`,
`client`, `dedicated_server`, `gatekeeper`, `orchestrator` or `spatial_service`.

`tests/` runs the library on given values, the numbers against those of the
machine.
