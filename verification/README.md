# minesweeper_server

A multiplayer Minesweeper server. Players log in through a small web front end,
meet in rooms over websockets, and uncover a shared board together.

The rules of the game and of the lobby are a Verus library, proved against their
contracts; the web server around it is ordinary Rust.

## Layout

- `src/minesweeper.rs`: one room. The board, what the players see, flags, the flood
  that uncovers a quiet region, losing, starting over, and the texts a room sends.
- `src/games.rs`: the lobby. Every room and every user online, and for each request
  (join, create, leave, kick, move, flag, reset, recolour, list) the new state and the
  messages it sends to each connection.
- `src/session.rs`: one websocket session. Reading a client's command and the request
  it makes to the lobby.
- `src/service.rs`, `src/responses.rs`, `src/requests.rs`: the account rules
  (registration checks, login, landing page) and the JSON bodies they answer with.
- `src/text.rs`, `src/grid.rs`, `src/json.rs`: decimal text, command splitting, board
  counting, and JSON string quoting.
- `src/laws.rs`: properties that relate several calls.
- `app/main.rs`: the actix-web server, the MongoDB user store, the websocket and lobby
  actors. It hands the library plain values and delivers the messages it returns.
- `tests/`: tests of the library on concrete values.
