# ukmmsg2json

Converts the message files of UKMM mods for Breath of the Wild
(`Msg_*.product.sarc`) to editable JSON and back.

`src/` is the library, verified with Verus. `app/` is the program around it:
prompts, files, ZIP archives, and the MSBT and Yaz0 formats. `tests/` runs the
library on concrete values.

| Module | What it holds |
|--------|---------------|
| `cbor` | writing CBOR texts and map headers, collecting the strings of a document |
| `compression` | the zstd layer, with a dictionary or without |
| `json` | the JSON texts of sections |
| `sections` | sections in the order of their names |
| `messages` | what may be written, and the document that is written |
| `reading` | finding sections in a document; what is written reads back |
| `sarc` | archives with message files |
| `convert` | from the bytes of a file to its messages, in stages |
| `language` | language codes in names |
| `names` | the names of files |
| `mods` | the list of installed mods |
| `session` | which step of a session follows which |
| `rebuild` | what a rebuilt mod consists of |
| `text` | searching, trimming and ordering texts, numbers in them |

What is believed of other crates without proof stands in functions marked
`external_body`; the comment above each says what that is.
