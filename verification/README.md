# spritebox

Branch-scoped development environments on Fly.io Sprites: a tool that makes,
enters and shares sprites, and a filesystem that mounts a directory of the host
in a sprite.

The library in `src/` holds the rules, and every one of them is proved with
Verus against its contract. The program in `app/` does what reaches outside:
arguments, files, processes, sockets, the terminal and the kernel.

## The library

| Module      | What it holds                                                            |
|-------------|--------------------------------------------------------------------------|
| `text`      | characters, numbers and white space                                      |
| `path`      | paths as components                                                      |
| `payload`   | byte buffers, and what writing and cutting does to them                  |
| `protocol`  | requests, responses and pushes                                           |
| `host`      | the side that holds the files: inode numbers, an in-memory filesystem, the dispatcher, the watcher's rules, prefetching |
| `remote`    | the side that mounts them: requests in flight, the caches, write-back    |
| `transport` | frames on a byte stream, and a transport with faults                     |
| `fuse`      | what the kernel is told                                                  |
| `sprites`   | the service's API, commands, consoles, and the bridge to the host        |
| `cli`       | launching, tools, sharing, prompts, credentials, scripts                 |
| `board`     | the message board of a repository                                        |
| `naming`    | names of sprites                                                         |

What relates several functions stands as a public proof function whose name
begins with `law_`. `remote::laws` says, for instance, that the caches are
invisible: a read gives what the host holds, with the sprite's own writes on
top.

## What is trusted

Calls into other crates and into parts of std stand behind small functions
whose contracts are believed: `bytes::Bytes`, SHA-256 (`sha2`), JSON strings
(`serde_json`), addresses (`url`), UTF-8 and the wall clock (std). Their doc
comments say what is claimed.
