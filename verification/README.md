# forge_chat

The logic of the streaming chat agent of a local IDE, verified with Verus.

- `src/` is the library. Text is held as UTF-8 bytes, so that lengths and cut positions are
  byte counts as they are for `str`.
  - `text`: searching, trimming, lines, decimal numbers.
  - `json`: JSON values one level at a time, the library reading nested values itself.
  - `budget`: token estimates and the split of the context window.
  - `history`: which earlier messages fit in the budget, newest first.
  - `prompt`: system prompt, active-file and knowledge-base blocks, attachments.
  - `conversation`: the messages of the first request.
  - `request`: the model's settings and what a request carries besides its messages.
  - `stream`: server-sent-event framing, decoding of stream events, reasoning/content deltas,
    tool-command detection.
  - `tools`: the tools the model can call, their arguments and result texts.
  - `tree`: the directory tree of the `tree` tool.
  - `walk`: which files a codebase search reads and which entries a file search reports,
    over a listing of the directories.
  - `session`: the chat as a state machine from the first request to the end of the reply:
    messages streamed to the client, the cap on requests, tool rounds.
- `app/` is the program around it: HTTP, websocket messages, the file system, the shell, and
  the floating-point share of the context budget. It feeds the session what the network and
  the tools deliver and carries out what the session returns.
- `tests/` runs the library on concrete inputs.
