# minicpm

MiniCPM5 writes its tool calls and its reasoning as markup into the text of its
answers. This library takes a streamed answer apart, and hands it on as the
events of a chat agent: text, reasoning, calls, the tokens used, and the end of
the answer.

- `src/` is the library. Its contracts and laws are proved with Verus.
  - `text`, `bytes`, `decimal`, `json`: texts, bytes from the wire, numbers, JSON
    values.
  - `scanner`, `streaming`: where text, think blocks and function blocks begin
    and end, and that it does not matter how an answer is cut into chunks.
  - `markup`, `call`: from a function block to the call that it makes.
  - `capabilities`: the events of the agent kernel, the decoder of an answer's
    body, and what is done when a connection fails.
  - `core_layer`: the events of a conversation, what is done while an answer is
    read, and the conversation as the model is shown it.
- `tests/` runs the library on examples.
- `app/` is the network side.

What rests on `serde_json` and the standard library without proof stands in
`json`, `bytes` and `text`, each item with the function that it speaks of.
