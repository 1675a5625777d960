# lothelper

The core of a desktop assistant that talks to a language model on a local llama.cpp server and
works on the user's project folder. The library decides, and Verus proves what it decides; the
application around it reads and writes files, starts programs and asks the server.

- `src/agent.rs`: a session of the model with the project, as a state machine
- `src/guarantees.rs`: what holds of every session
- `src/blocks.rs`: the actions that a reply asks for by fenced blocks
- `src/paths.rs`, `src/walk.rs`, `src/workspace.rs`: the project folder and what is shown of it
- `src/server.rs`, `src/chat.rs`, `src/json.rs`, `src/prompts.rs`: the model server
- `src/shell.rs`: commands of the operating system and their reports
- `src/text.rs`, `src/number.rs`, `src/clip.rs`, `src/order.rs`: texts and numbers
- `app/`: the application
- `tests/`: what the library does on concrete values
