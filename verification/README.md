# signal-ai-bot

A Signal client that runs an OpenAI-compatible chatbot in your chats. A message
that holds `@ai` summons it, and so does a reply to one of its own messages. It
works in direct and group chats, with text, images and voice messages, and uses
recent messages as context. Digits right behind the trigger shorten that window
for one prompt: `@ai2` sees only the last two messages.

## Layout

- `src/` is the library: the decisions the bot makes, verified with Verus.
- `app/` is the program around it: the Signal store and network, the HTTP stream,
  `ffmpeg`, files and the clock. It performs what the library decides and hands
  back what came of it. The one setting it reads for itself is the playback speed
  of voice messages, a floating-point number that it keeps between 0.5 and 2.0.
- `tests/` runs the library on concrete values.

| module | what it decides |
| --- | --- |
| `text`, `json`, `ids`, `attachment` | the values everything else is stated over |
| `config` | the settings that the environment gives |
| `message` | what an envelope says, who it mentions, which answer it revises |
| `names`, `recipient` | who is called what, and how an answer is addressed |
| `history` | the window of the chat that is shown, one entry per message |
| `transcript`, `turn` | how the conversation is numbered and put to the model |
| `tools`, `memory` | what the model may ask for, and what it gets |
| `media`, `images`, `audio` | how attachments are encoded |
| `ai`, `stream`, `answer`, `redact` | what is asked of the model, and what is made of its stream |
| `exchange` | the rounds of one prompt, from placeholder to answer |
| `handler`, `convo_cache` | what is answered, what it builds on, what is kept |
| `prune`, `replies` | what is deleted, and what is recorded |

## Settings

`API_BASE` and `MODEL` are required. The others are `API_KEY`, `SYSTEM_PROMPT`,
`REASONING_BUDGET`, `VISION`, `AUDIO`, `AUDIO_SPEED`, `DOCUMENTS`,
`EXTRA_TOOLS`, `TRIGGER`, `CONTEXT_MESSAGES`, `MESSAGE_RETENTION_DAYS`,
`DEVICE_NAME`, `PROCESSING_MESSAGE`, `REASONING_MESSAGE`, `GENERATING_MESSAGE`
and `TOOL_MESSAGE`.

Memories of a chat are no setting of the environment: they are off unless a program
turns them on with `Config::with_memory`.
