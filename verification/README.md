# proj

A project directory manager: projects live flat in one directory, and a YAML
catalog maps each project name to a category tag. Moving a project between
categories changes the tag only; directories never move.

`src/` is the verified library:

- `catalog` — the catalog as a map from name to category, kept in ascending
  order of name.
- `sync` — bringing the catalog in line with the directories on disk.
- `commands` — moving, renaming, removing and pruning projects, creating new
  ones, and checking categories; where the disk or git matters, a function
  asks for the fact it needs.
- `listing`, `search`, `render` — the editable text, the list and tree views,
  and search, as lines of styled text.
- `config` — settings, their defaults, their display, and the migration of
  old settings files.
- `order`, `text`, `url`, `paths` — ordering, text utilities, project names
  from repository URLs, and `~` in paths.
- `yaml` — the catalog and category files, read and written with serde_yaml.
- `yaml_value` — YAML documents as values, and what settings migration reads
  of `config.yaml`.

`app/` is the `proj-core` command: argument parsing, files, git, the editor,
and colored output.
