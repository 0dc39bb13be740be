# bottle

A terminal chat client. The library (`src/`) holds its logic, verified with
Verus: word wrapping of messages, the layout of the conversation and of the
input box as drawing commands, the handling of key presses and of incoming
messages, and the messages themselves. `app/` is the program around it: the
curses window that carries out the drawing commands and reads keys, the
websocket connection, the system clock, and the bincode encoding of messages.

- `src/wrap.rs`: splitting text at spaces and greedy wrapping, with the
  laws that wrapping keeps every word in order, never leaves a line empty,
  keeps lines under the width unless a single word is longer, is greedy,
  and never gives more lines at a wider width.
- `src/draw.rs`: drawing commands, the layout of a message's lines, clearing
  a box.
- `src/input.rs`: the line being typed and the layout of the input box.
- `src/message.rs`: the messages of the networked chat.
- `src/chat_window.rs`: the networked chat window, with one turn of its
  event loop (`refresh`, `on_key`).
- `src/local_chat.rs`: the test chat, whose messages stay on the screen,
  with one turn of its event loop (`on_key`).
