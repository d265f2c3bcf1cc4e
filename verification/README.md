# fff_gpui

A keyboard-driven file finder. A resident service opens picker windows over a project; the picker
finds files by name or by content, previews them with syntax highlighting, and opens what is picked
in an editor.

`src/` holds the rules of the finder as a Verus library: what each function returns or changes is
stated in its contract and proved.

| module | what it is about |
| --- | --- |
| `text`, `components`, `order`, `paths` | characters and bytes, paths by their components, sets of texts in order, where files lie |
| `color`, `theme`, `zed`, `config` | colours, the theme in force, Zed's settings and themes, the configuration |
| `hotkey`, `keys` | the notation and registration of the global shortcut, the keys of the picker |
| `query`, `matching`, `search` | from the typed text to results and their matches |
| `grammar`, `preview`, `overlay` | coloured lines of a file, and matches laid over them |
| `picker`, `opening`, `display` | the state of a picker, its events, what it opens and what its window shows |
| `service`, `launch`, `editor` | requests to the service, command lines, the editor's command |
| `assets`, `login_item`, `path_shortening` | icons and fonts, launching at login, short paths |

Proof functions whose names begin with `law_` state what holds of the library as a whole.

`app/` is the program around the library: windows, sockets, files and the file index. `tests/` runs
the library on examples.
